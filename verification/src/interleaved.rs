//! What a restart gives back of a history in which credits came between vertices.
//!
//! A restart pays all credits before the first vertex. That makes no difference but to a
//! spend that failed for lack of balance and whose sender was credited only afterwards.

use vstd::prelude::*;

use crate::dag::error::DagError;
use crate::dag::model::{amount_at, is_lost_spend, law_attach_keeps_sound, DagView, GraphView,
    LedgerView};
use crate::dag::tx::{TxHash, TxView};
use crate::persist::{alike, credited, genesis_state, lemma_accepted_step, lemma_with_alike, logged,
    reloaded, replay, SnapshotView};
use crate::restart::{attach_log, lemma_alike_fault, lemma_alike_loses, lemma_credited,
    lemma_genesis_twins, lemma_stored_first, lemma_twin_accepted, log_from, twins};
use crate::table::{lemma_ascending_distinct, lemma_ordered_set, ordered};
use crate::types::Address;

verus! {

/// A step of a history.
pub enum Step {
    Credit(Address, u64),
    Take(TxView),
}

/// `d` after the steps; the error where a vertex was refused.
pub open spec fn run(d: DagView, steps: Seq<Step>) -> (DagView, Option<DagError>)
    decreases steps.len(),
{
    if steps.len() == 0 {
        (d, None)
    } else {
        match steps[0] {
            Step::Credit(a, amount) => run(d.funded(a, amount), steps.drop_first()),
            Step::Take(t) => {
                let (after, r) = d.accepted(t);
                match r {
                    Ok(_) => run(after, steps.drop_first()),
                    Err(e) => (after, Some(e)),
                }
            },
        }
    }
}

/// What the steps credit to `a` in all.
pub open spec fn due(steps: Seq<Step>, a: Address) -> nat
    decreases steps.len(),
{
    if steps.len() == 0 {
        0
    } else {
        due(steps.drop_first(), a) + (match steps[0] {
            Step::Credit(b, amount) => if a == b {
                amount as nat
            } else {
                0
            },
            Step::Take(_) => 0,
        })
    }
}

/// The rebuild of `d` comes to a spend of `a` at place `n` of the attach order that the
/// balance does not cover.
pub open spec fn starved_at(d: DagView, n: int, a: Address) -> bool {
    let before = d.replayed(n as nat);
    let id = d.graph.order[n];
    let t = d.graph.vertices[id];
    &&& 0 <= n < d.graph.order.len()
    &&& !d.graph.loses(id)
    &&& !t.is_genesis()
    &&& t.sender == a
    &&& before.ledger.transfer_fault(t) == Some(DagError::InsufficientBalance)
}

/// Taking `t` has a spend of `a` fail for lack of balance: `t` itself, or one that the
/// rebuild comes to.
pub open spec fn starves(d: DagView, t: TxView, a: Address) -> bool {
    let fault = d.attached(t, true, t.relay_nodes).1;
    &&& !d.graph.vertices.contains_key(t.id)
    &&& {
        ||| fault == Some(DagError::InsufficientBalance) && t.sender == a
        ||| (fault matches Some(e) && is_lost_spend(e)) && exists|n: int| #[trigger]
            starved_at(d.stored(t).0, n, a)
    }
}

/// No account is credited after a spend of it has failed for lack of balance.
pub open spec fn credited_in_time(d: DagView, steps: Seq<Step>) -> bool
    decreases steps.len(),
{
    steps.len() > 0 ==> match steps[0] {
        Step::Credit(a, amount) => credited_in_time(d.funded(a, amount), steps.drop_first()),
        Step::Take(t) => {
            &&& forall|a: Address| #[trigger] due(steps.drop_first(), a) > 0 ==> !starves(d, t, a)
            &&& credited_in_time(d.accepted(t).0, steps.drop_first())
        },
    }
}

/// `m` is `l` with the credits that are still due.
spec fn amounts_ahead(l: Map<Address, u64>, m: Map<Address, u64>, steps: Seq<Step>) -> bool {
    forall|a: Address|
        {
            &&& #[trigger] amount_at(m, a) == amount_at(l, a) + due(steps, a)
            &&& m.contains_key(a) <==> l.contains_key(a) || due(steps, a) > 0
        }
}

spec fn ledger_ahead(l: LedgerView, m: LedgerView, steps: Seq<Step>) -> bool {
    &&& m == (LedgerView { balances: m.balances, ..l })
    &&& amounts_ahead(l.balances, m.balances, steps)
}

/// `e` is `d` with the credits that are still due, and perhaps another signature of genesis.
spec fn ahead(d: DagView, e: DagView, steps: Seq<Step>) -> bool {
    &&& alike(d.graph, e.graph)
    &&& ledger_ahead(d.ledger, e.ledger, steps)
    &&& d.relay_of == e.relay_of
    &&& d.conflicts == e.conflicts
    &&& amounts_ahead(d.faucet, e.faucet, steps)
}

proof fn lemma_ahead_at(l: Map<Address, u64>, m: Map<Address, u64>, steps: Seq<Step>, a: Address)
    requires
        amounts_ahead(l, m, steps),
    ensures
        amount_at(m, a) == amount_at(l, a) + due(steps, a),
        m.contains_key(a) <==> l.contains_key(a) || due(steps, a) > 0,
{
    assert(amount_at(m, a) == amount_at(l, a) + due(steps, a));
}

/// Both sides are given the new amount of `a`.
proof fn lemma_ahead_insert(
    l: Map<Address, u64>,
    m: Map<Address, u64>,
    steps: Seq<Step>,
    a: Address,
    x: u64,
    y: u64,
)
    requires
        amounts_ahead(l, m, steps),
        y == x + due(steps, a),
    ensures
        amounts_ahead(l.insert(a, x), m.insert(a, y), steps),
{
    let l2 = l.insert(a, x);
    let m2 = m.insert(a, y);
    assert forall|b: Address|
        {
            &&& #[trigger] amount_at(m2, b) == amount_at(l2, b) + due(steps, b)
            &&& m2.contains_key(b) <==> l2.contains_key(b) || due(steps, b) > 0
        } by {
        lemma_ahead_at(l, m, steps, b);
    }
}

proof fn lemma_ahead_credited(
    l: LedgerView,
    m: LedgerView,
    steps: Seq<Step>,
    a: Address,
    amount: u64,
)
    requires
        ledger_ahead(l, m, steps),
        m.can_credit(a, amount),
    ensures
        l.can_credit(a, amount),
        ledger_ahead(l.credited(a, amount), m.credited(a, amount), steps),
{
    lemma_ahead_at(l.balances, m.balances, steps, a);
    if amount > 0 {
        lemma_ahead_insert(
            l.balances,
            m.balances,
            steps,
            a,
            (l.balance(a) + amount) as u64,
            (m.balance(a) + amount) as u64,
        );
    }
}

proof fn lemma_ahead_relays(
    l: LedgerView,
    m: LedgerView,
    steps: Seq<Step>,
    relays: Seq<Address>,
    i: nat,
    total: u64,
)
    requires
        ledger_ahead(l, m, steps),
        l.relays_paid(relays, i, total).1,
        m.relays_paid(relays, i, total).1,
    ensures
        ledger_ahead(
            l.relays_paid(relays, i, total).0,
            m.relays_paid(relays, i, total).0,
            steps,
        ),
    decreases relays.len() - i,
{
    if i < relays.len() {
        let amount = crate::dag::model::relay_payout(relays.len(), i, total);
        let a = relays[i as int];
        lemma_ahead_credited(l, m, steps, a, amount);
        let p = l.credited(a, amount);
        let q = m.credited(a, amount);
        let accrued = amount_at(p.relay_credits, a);
        lemma_ahead_relays(
            LedgerView {
                relay_credits: p.relay_credits.insert(a, (accrued + amount) as u64),
                ..p
            },
            LedgerView {
                relay_credits: q.relay_credits.insert(a, (accrued + amount) as u64),
                ..q
            },
            steps,
            relays,
            i + 1,
            total,
        );
    }
}

proof fn lemma_ahead_minted(
    l: LedgerView,
    m: LedgerView,
    steps: Seq<Step>,
    fee: u64,
    miner: Address,
    relay_nodes: Seq<Address>,
)
    requires
        ledger_ahead(l, m, steps),
        l.minted(fee, miner, relay_nodes).1,
        m.minted(fee, miner, relay_nodes).1,
    ensures
        ledger_ahead(
            l.minted(fee, miner, relay_nodes).0,
            m.minted(fee, miner, relay_nodes).0,
            steps,
        ),
{
    let subsidy = crate::economics::tx_subsidy(l.count, l.supply);
    let relays = crate::dag::tx::distinct(relay_nodes);
    let pool = (subsidy + fee) as u64;
    let cut = crate::economics::share(pool, crate::economics::DAG_MINER_SHARE_PERCENT);
    let miner_paid = if relays.len() == 0 {
        pool
    } else {
        cut
    };
    lemma_ahead_credited(l, m, steps, miner, miner_paid);
    lemma_ahead_relays(
        l.credited(miner, miner_paid),
        m.credited(miner, miner_paid),
        steps,
        relays,
        0,
        (pool - cut) as u64,
    );
}

/// The richer ledger refuses a transfer that the other one takes only where a sum
/// overflows, and takes none that the other one refuses unless its sender is due credits.
proof fn lemma_ahead_transfer(l: LedgerView, m: LedgerView, steps: Seq<Step>, t: TxView)
    requires
        ledger_ahead(l, m, steps),
        l.transfer_fault(t) == Some(DagError::InsufficientBalance) ==> due(steps, t.sender) == 0,
        l.transfer_fault(t) != Some(DagError::Overflow),
    ensures
        m.transfer_fault(t) == l.transfer_fault(t) || m.transfer_fault(t) == Some(
            DagError::Overflow,
        ),
        m.transfer_fault(t) is None ==> ledger_ahead(l.transferred(t), m.transferred(t), steps),
{
    lemma_ahead_at(l.balances, m.balances, steps, t.sender);
    lemma_ahead_at(l.balances, m.balances, steps, t.recipient);
    if m.transfer_fault(t) is None {
        assert(l.transfer_fault(t) is None);
        if t.sender == t.recipient {
            lemma_ahead_insert(
                l.balances,
                m.balances,
                steps,
                t.sender,
                (l.balance(t.sender) - t.fee) as u64,
                (m.balance(t.sender) - t.fee) as u64,
            );
        } else {
            let x = (l.balance(t.sender) - t.amount - t.fee) as u64;
            let y = (m.balance(t.sender) - t.amount - t.fee) as u64;
            lemma_ahead_insert(l.balances, m.balances, steps, t.sender, x, y);
            lemma_ahead_insert(
                l.balances.insert(t.sender, x),
                m.balances.insert(t.sender, y),
                steps,
                t.recipient,
                (l.balance(t.recipient) + t.amount) as u64,
                (m.balance(t.recipient) + t.amount) as u64,
            );
        }
    }
}

proof fn lemma_ahead_applied(
    l: LedgerView,
    m: LedgerView,
    steps: Seq<Step>,
    t: TxView,
    relays: Seq<Address>,
)
    requires
        ledger_ahead(l, m, steps),
        l.transfer_fault(t) == Some(DagError::InsufficientBalance) ==> due(steps, t.sender) == 0,
        l.applied(t, relays).1 != Some(DagError::Overflow),
    ensures
        m.applied(t, relays).1 == Some(DagError::Overflow) || {
            &&& m.applied(t, relays).1 == l.applied(t, relays).1
            &&& ledger_ahead(l.applied(t, relays).0, m.applied(t, relays).0, steps)
        },
{
    lemma_ahead_transfer(l, m, steps, t);
    if m.transfer_fault(t) is None && m.applied(t, relays).1 is None {
        lemma_ahead_minted(
            l.transferred(t),
            m.transferred(t),
            steps,
            t.fee,
            t.sender,
            relays,
        );
    }
}

/// A rebuild of the richer state gives the richer ledger and fails the same spends, unless
/// a sum overflows.
proof fn lemma_ahead_replayed(d: DagView, e: DagView, steps: Seq<Step>, n: nat)
    requires
        alike(d.graph, e.graph),
        d.relay_of == e.relay_of,
        amounts_ahead(d.faucet, e.faucet, steps),
        d.graph.sound(),
        n <= d.graph.order.len(),
        d.replayed(n).error is None,
        forall|k: int, a: Address| #[trigger] starved_at(d, k, a) ==> due(steps, a) == 0,
    ensures
        e.replayed(n).error == Some(DagError::Overflow) || {
            &&& e.replayed(n).error is None
            &&& e.replayed(n).failed == d.replayed(n).failed
            &&& ledger_ahead(d.replayed(n).ledger, e.replayed(n).ledger, steps)
        },
    decreases n,
{
    if n > 0 {
        lemma_ahead_replayed(d, e, steps, (n - 1) as nat);
        let id = d.graph.order[n - 1];
        let before = d.replayed((n - 1) as nat);
        assert(d.graph.order.contains(id));
        assert(d.graph.vertices.contains_key(id));
        lemma_alike_loses(d.graph, e.graph, id);
        if id == d.graph.genesis_id() {
            assert(d.graph.grounded(0));
            assert(d.graph.order[0] == id);
            assert(e.graph.vertices[id].is_genesis());
        } else {
            let t = d.graph.vertices[id];
            assert(t == e.graph.vertices[id]);
            assert(d.payout_relays(id) == e.payout_relays(id));
            if !d.graph.loses(id) && !t.is_genesis() && e.replayed((n - 1) as nat).error is None {
                if before.ledger.transfer_fault(t) == Some(DagError::InsufficientBalance) {
                    assert(starved_at(d, n - 1, t.sender));
                }
                lemma_ahead_applied(
                    before.ledger,
                    e.replayed((n - 1) as nat).ledger,
                    steps,
                    t,
                    d.payout_relays(id),
                );
            }
        }
    }
}

proof fn lemma_ahead_resolved(d: DagView, e: DagView, steps: Seq<Step>)
    requires
        ahead(d, e, steps),
        d.graph.sound(),
        d.resolved().1 is None,
        forall|k: int, a: Address| #[trigger] starved_at(d, k, a) ==> due(steps, a) == 0,
    ensures
        e.resolved().1 == Some(DagError::Overflow) || {
            &&& e.resolved().1 is None
            &&& ahead(d.resolved().0, e.resolved().0, steps)
        },
{
    lemma_ahead_replayed(d, e, steps, d.graph.order.len());
    if e.resolved().1 is None {
        assert forall|id: TxHash| #[trigger]
            d.graph.loses(id) == e.graph.loses(id) && (d.graph.loses(id) ==> d.graph.winner(id)
                == e.graph.winner(id)) by {
            lemma_alike_loses(d.graph, e.graph, id);
        }
        assert(d.resolved().0.conflicts =~= e.resolved().0.conflicts);
    }
}

/// The richer state takes what the other one takes, and stays as much richer, unless a sum
/// overflows.
proof fn lemma_ahead_accepted(d: DagView, e: DagView, steps: Seq<Step>, t: TxView)
    requires
        ahead(d, e, steps),
        d.graph.sound(),
        d.graph.order.len() > 0,
        d.accepted(t).1 is Ok,
        forall|a: Address| #[trigger] due(steps, a) > 0 ==> !starves(d, t, a),
    ensures
        e.accepted(t).1 == Err::<bool, DagError>(DagError::Overflow) || {
            &&& e.accepted(t).1 is Ok
            &&& ahead(d.accepted(t).0, e.accepted(t).0, steps)
        },
{
    lemma_alike_fault(d.graph, e.graph, t);
    let g = d.graph;
    if !g.vertices.contains_key(t.id) {
        assert(g.vertex_fault(t) is None);
        lemma_stored_first(g);
        law_attach_keeps_sound(g, t);
        lemma_with_alike(g, e.graph, t);
        let fault = d.attached(t, true, t.relay_nodes).1;
        if d.ledger.transfer_fault(t) == Some(DagError::InsufficientBalance) {
            assert(starves(d, t, t.sender));
            assert(due(steps, t.sender) == 0);
        }
        lemma_ahead_transfer(d.ledger, e.ledger, steps, t);
        if fault is None {
            if e.attached(t, true, t.relay_nodes).1 is None {
                lemma_ahead_minted(
                    d.ledger.transferred(t),
                    e.ledger.transferred(t),
                    steps,
                    t.fee,
                    t.sender,
                    t.relay_nodes,
                );
            }
        } else if e.ledger.transfer_fault(t) == d.ledger.transfer_fault(t) {
            let s = d.stored(t).0;
            assert forall|k: int, a: Address| #[trigger] starved_at(s, k, a) implies due(steps, a)
                == 0 by {
                if due(steps, a) > 0 {
                    assert(starves(d, t, a));
                }
            }
            lemma_ahead_resolved(s, e.stored(t).0, steps);
        }
    }
}

/// A history only adds to a graph.
pub proof fn lemma_run_extends(d: DagView, steps: Seq<Step>)
    requires
        d.graph.sound(),
        d.graph.order.len() > 0,
        run(d, steps).1 is None,
    ensures
        ({
            let end = run(d, steps).0.graph;
            &&& d.graph.order.len() <= end.order.len()
            &&& end.order.take(d.graph.order.len() as int) == d.graph.order
            &&& forall|k: TxHash| #[trigger]
                d.graph.vertices.contains_key(k) ==> end.vertices.contains_key(k)
                    && end.vertices[k] == d.graph.vertices[k]
        }),
    decreases steps.len(),
{
    let end = run(d, steps).0.graph;
    if steps.len() == 0 {
        assert(end.order.take(end.order.len() as int) =~= end.order);
    } else {
        match steps[0] {
            Step::Credit(a, amount) => {
                lemma_run_extends(d.funded(a, amount), steps.drop_first());
            },
            Step::Take(t) => {
                let next = d.accepted(t).0;
                lemma_step_kept(d, t);
                lemma_run_extends(next, steps.drop_first());
                if !d.graph.vertices.contains_key(t.id) {
                    let n = d.graph.order.len() as int;
                    assert(end.order.take(n) =~= end.order.take(n + 1).take(n));
                    assert(d.graph.order.push(t.id).take(n) =~= d.graph.order);
                    assert forall|k: TxHash| #[trigger]
                        d.graph.vertices.contains_key(k) implies end.vertices.contains_key(k)
                        && end.vertices[k] == d.graph.vertices[k] by {
                        assert(next.graph.vertices.contains_key(k));
                    }
                }
            },
        }
    }
}

/// What taking a vertex keeps.
proof fn lemma_step_kept(d: DagView, t: TxView)
    requires
        d.graph.sound(),
        d.graph.order.len() > 0,
        d.accepted(t).1 is Ok,
    ensures
        d.accepted(t).0.graph.sound(),
        d.accepted(t).0.graph.order.len() > 0,
        d.accepted(t).0.faucet == d.faucet,
        d.accepted(t).0.graph == (if d.graph.vertices.contains_key(t.id) {
            d.graph
        } else {
            d.graph.with(t)
        }),
{
    assert(twins(d, d));
    lemma_twin_accepted(d, d, t);
    lemma_stored_first(d.graph);
    lemma_accepted_step(d, t);
}

/// The credits of a history are on the faucet at its end.
pub proof fn lemma_run_faucet(d: DagView, steps: Seq<Step>, a: Address)
    requires
        d.graph.sound(),
        d.graph.order.len() > 0,
        run(d, steps).1 is None,
        amount_at(d.faucet, a) + due(steps, a) <= u64::MAX,
    ensures
        amount_at(run(d, steps).0.faucet, a) == amount_at(d.faucet, a) + due(steps, a),
        run(d, steps).0.faucet.contains_key(a) <==> d.faucet.contains_key(a) || due(steps, a) > 0,
    decreases steps.len(),
{
    if steps.len() > 0 {
        match steps[0] {
            Step::Credit(b, amount) => {
                lemma_run_faucet(d.funded(b, amount), steps.drop_first(), a);
            },
            Step::Take(t) => {
                lemma_step_kept(d, t);
                lemma_run_faucet(d.accepted(t).0, steps.drop_first(), a);
            },
        }
    }
}

/// The credits of a history are finitely many.
pub proof fn lemma_run_finite(d: DagView, steps: Seq<Step>)
    requires
        d.graph.sound(),
        d.graph.order.len() > 0,
        d.faucet.dom().finite(),
        run(d, steps).1 is None,
    ensures
        run(d, steps).0.faucet.dom().finite(),
    decreases steps.len(),
{
    if steps.len() > 0 {
        match steps[0] {
            Step::Credit(b, amount) => {
                assert(d.funded(b, amount).faucet.dom() =~= d.faucet.dom() || d.funded(
                    b,
                    amount,
                ).faucet.dom() =~= d.faucet.dom().insert(b));
                lemma_run_finite(d.funded(b, amount), steps.drop_first());
            },
            Step::Take(t) => {
                lemma_step_kept(d, t);
                lemma_run_finite(d.accepted(t).0, steps.drop_first());
            },
        }
    }
}

/// One credit less is due once it is paid.
proof fn lemma_ahead_funded(d: DagView, e: DagView, steps: Seq<Step>)
    requires
        steps.len() > 0,
        steps[0] is Credit,
        ahead(d, e, steps),
    ensures
        ahead(d.funded(steps[0]->Credit_0, steps[0]->Credit_1), e, steps.drop_first()),
{
    let a = steps[0]->Credit_0;
    let amount = steps[0]->Credit_1;
    let rest = steps.drop_first();
    let f = d.funded(a, amount);
    assert forall|b: Address|
        {
            &&& #[trigger] amount_at(e.ledger.balances, b) == amount_at(f.ledger.balances, b) + due(
                rest,
                b,
            )
            &&& e.ledger.balances.contains_key(b) <==> f.ledger.balances.contains_key(b) || due(
                rest,
                b,
            ) > 0
        } by {
        lemma_ahead_at(d.ledger.balances, e.ledger.balances, steps, b);
    }
    assert forall|b: Address|
        {
            &&& #[trigger] amount_at(e.faucet, b) == amount_at(f.faucet, b) + due(rest, b)
            &&& e.faucet.contains_key(b) <==> f.faucet.contains_key(b) || due(rest, b) > 0
        } by {
        lemma_ahead_at(d.faucet, e.faucet, steps, b);
    }
}

/// The log from a vertex on begins with it.
proof fn lemma_log_goes_on(next: GraphView, end: GraphView, g: GraphView, t: TxView)
    requires
        next == g.with(t),
        next.order.len() <= end.order.len(),
        end.order.take(next.order.len() as int) == next.order,
        forall|k: TxHash| #[trigger]
            next.vertices.contains_key(k) ==> end.vertices.contains_key(k) && end.vertices[k]
                == next.vertices[k],
    ensures
        next.order.len() == g.order.len() + 1,
        log_from(end, g.order.len() as int).len() > 0,
        log_from(end, g.order.len() as int)[0] == t,
        log_from(end, g.order.len() as int).drop_first() == log_from(
            end,
            next.order.len() as int,
        ),
{
    let n = g.order.len() as int;
    assert(end.order.take(n + 1)[n] == t.id);
    assert(next.vertices.contains_key(t.id));
    assert(log_from(end, n)[0] == t);
    assert(log_from(end, n).drop_first() =~= log_from(end, n + 1));
}

proof fn lemma_nothing_due(l: Map<Address, u64>, m: Map<Address, u64>, steps: Seq<Step>)
    requires
        amounts_ahead(l, m, steps),
        steps.len() == 0,
    ensures
        l == m,
{
    assert forall|a: Address| #[trigger] l.dom().contains(a) == m.dom().contains(a) by {
        lemma_ahead_at(l, m, steps, a);
    }
    assert(l.dom() =~= m.dom());
    assert forall|a: Address| #[trigger] l.contains_key(a) implies l[a] == m[a] by {
        lemma_ahead_at(l, m, steps, a);
    }
    assert(l =~= m);
}

/// The vertices of a history, taken in attach order by the state that has all its credits
/// already, give what the history gave, unless a sum overflows.
proof fn lemma_credits_may_come_first(d: DagView, e: DagView, steps: Seq<Step>)
    requires
        ahead(d, e, steps),
        d.graph.sound(),
        d.graph.order.len() > 0,
        run(d, steps).1 is None,
        credited_in_time(d, steps),
    ensures
        ({
            let end = run(d, steps).0;
            let (again, fault) = replay(e, log_from(end.graph, d.graph.order.len() as int));
            match fault {
                None => twins(end, again),
                Some(f) => f == DagError::Overflow,
            }
        }),
    decreases steps.len(),
{
    let end = run(d, steps).0;
    let n = d.graph.order.len() as int;
    let log = log_from(end.graph, n);
    if steps.len() == 0 {
        assert(log =~= Seq::<TxView>::empty());
        lemma_nothing_due(d.ledger.balances, e.ledger.balances, steps);
        lemma_nothing_due(d.faucet, e.faucet, steps);
    } else {
        let rest = steps.drop_first();
        match steps[0] {
            Step::Credit(a, amount) => {
                lemma_ahead_funded(d, e, steps);
                lemma_credits_may_come_first(d.funded(a, amount), e, rest);
            },
            Step::Take(t) => {
                let next = d.accepted(t).0;
                lemma_same_due(d, e, steps);
                lemma_step_kept(d, t);
                lemma_ahead_accepted(d, e, rest, t);
                if d.graph.vertices.contains_key(t.id) {
                    lemma_alike_fault(d.graph, e.graph, t);
                    lemma_credits_may_come_first(next, e, rest);
                } else {
                    lemma_run_extends(next, rest);
                    lemma_log_goes_on(next.graph, end.graph, d.graph, t);
                    if e.accepted(t).1 is Ok {
                        lemma_credits_may_come_first(next, e.accepted(t).0, rest);
                    }
                }
            },
        }
    }
}

proof fn lemma_same_due(d: DagView, e: DagView, steps: Seq<Step>)
    requires
        steps.len() > 0,
        steps[0] is Take,
        ahead(d, e, steps),
    ensures
        ahead(d, e, steps.drop_first()),
{
    let rest = steps.drop_first();
    assert forall|b: Address| #[trigger] due(steps, b) == due(rest, b) by {}
    assert forall|b: Address|
        {
            &&& #[trigger] amount_at(e.ledger.balances, b) == amount_at(d.ledger.balances, b) + due(
                rest,
                b,
            )
            &&& e.ledger.balances.contains_key(b) <==> d.ledger.balances.contains_key(b) || due(
                rest,
                b,
            ) > 0
        } by {
        assert(due(steps, b) == due(rest, b));
        lemma_ahead_at(d.ledger.balances, e.ledger.balances, steps, b);
    }
    assert forall|b: Address|
        {
            &&& #[trigger] amount_at(e.faucet, b) == amount_at(d.faucet, b) + due(rest, b)
            &&& e.faucet.contains_key(b) <==> d.faucet.contains_key(b) || due(rest, b) > 0
        } by {
        assert(due(steps, b) == due(rest, b));
        lemma_ahead_at(d.faucet, e.faucet, steps, b);
    }
}

/// A restart gives back the state also where credits came between the vertices, as long as
/// no account was credited after a spend of it had failed for lack of balance and the
/// credits of each account fit a balance: a snapshot of the state and a log of its vertices
/// in attach order are reloaded to the same graph but for the signature of genesis, with the
/// same ledger, credits and conflict table. Only a sum that overflows, which it may where
/// the credits come first, can stop the reload.
pub proof fn law_restart_after_late_credits(
    sig: Seq<u8>,
    steps: Seq<Step>,
    wal: Seq<u8>,
    other: Seq<u8>,
)
    requires
        genesis_state(sig).graph.order.len() > 0,
        genesis_state(other).graph.order.len() > 0,
        run(genesis_state(sig), steps).1 is None,
        credited_in_time(genesis_state(sig), steps),
        forall|a: Address| #[trigger] due(steps, a) <= u64::MAX,
        logged(wal, 0) == attach_log(run(genesis_state(sig), steps).0.graph),
    ensures
        ({
            let d = run(genesis_state(sig), steps).0;
            let (again, fault) = reloaded(SnapshotView::of(d, d.faucet), wal, other);
            match fault {
                None => twins(d, again),
                Some(f) => f == DagError::Overflow,
            }
        }),
{
    let base = genesis_state(sig);
    let fresh = genesis_state(other);
    lemma_genesis_twins(sig, other);
    lemma_genesis_twins(other, sig);
    let d = run(base, steps).0;
    let m = d.faucet;
    lemma_run_finite(base, steps);
    assert forall|a: Address| #[trigger] amount_at(m, a) == due(steps, a) && (m.contains_key(a)
        <==> due(steps, a) > 0) by {
        assert(due(steps, a) <= u64::MAX);
        lemma_run_faucet(base, steps, a);
    }
    let keys = ordered(m.dom());
    lemma_ordered_set(m.dom());
    lemma_ascending_distinct(keys);
    assert forall|i: int| 0 <= i < keys.len() implies m.contains_key(#[trigger] keys[i]) by {
        assert(keys.to_set().contains(keys[i]));
    }
    assert forall|a: Address| #[trigger] m.contains_key(a) implies m[a] > 0 by {
        assert(amount_at(m, a) == due(steps, a));
    }
    lemma_credited(fresh, m, keys);
    let again = credited(fresh, m, keys);
    assert(again.faucet =~= m);
    assert(ahead(base, again, steps)) by {
        assert forall|b: Address|
            {
                &&& #[trigger] amount_at(again.ledger.balances, b) == amount_at(
                    base.ledger.balances,
                    b,
                ) + due(steps, b)
                &&& again.ledger.balances.contains_key(b) <==> base.ledger.balances.contains_key(b)
                    || due(steps, b) > 0
            } by {
            assert(amount_at(m, b) == due(steps, b));
            assert(base.ledger.balances.contains_key(b) ==> base.ledger.balances[b] == 0);
        }
        assert forall|b: Address|
            {
                &&& #[trigger] amount_at(again.faucet, b) == amount_at(base.faucet, b) + due(
                    steps,
                    b,
                )
                &&& again.faucet.contains_key(b) <==> base.faucet.contains_key(b) || due(steps, b)
                    > 0
            } by {
            assert(amount_at(m, b) == due(steps, b));
        }
    }
    lemma_credits_may_come_first(base, again, steps);
}

} // verus!
