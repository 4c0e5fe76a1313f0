//! What a restart gives back of a graph and its ledger.

use vstd::prelude::*;

use crate::dag::engine::genesis_tx;
use crate::dag::error::DagError;
use crate::dag::laws::law_one_winner_per_nonce;
use crate::dag::model::{amount_at, law_attach_keeps_sound, lemma_winner_unique, DagView, GraphView,
    LedgerView};
use crate::dag::tx::{TxHash, TxView};
use crate::persist::{alike, credited, genesis_state, lemma_accepted_step, lemma_with_alike,
    loads_as, logged, refuses_as, reloaded, replay, SnapshotView};
use crate::table::{lemma_ascending_distinct, lemma_ordered_set, ordered};
use crate::types::Address;

verus! {

/// Two states that differ in the signature of genesis at most.
pub open spec fn twins(d: DagView, e: DagView) -> bool {
    &&& alike(d.graph, e.graph)
    &&& d.ledger == e.ledger
    &&& d.relay_of == e.relay_of
    &&& d.faucet == e.faucet
    &&& d.conflicts == e.conflicts
}

/// `d` after credits, one after the other.
pub open spec fn granted(d: DagView, credits: Seq<(Address, u64)>) -> DagView
    decreases credits.len(),
{
    if credits.len() == 0 {
        d
    } else {
        granted(d, credits.drop_last()).funded(credits.last().0, credits.last().1)
    }
}

/// The vertices behind genesis in attach order.
pub open spec fn attach_log(g: GraphView) -> Seq<TxView> {
    log_from(g, 1)
}

/// The vertices from place `n` of the attach order on.
pub open spec fn log_from(g: GraphView, n: int) -> Seq<TxView> {
    g.order.skip(n).map_values(|id: TxHash| g.vertices[id])
}

/// Graphs that are alike refuse the same vertices for the same reason.
pub proof fn lemma_alike_fault(g: GraphView, h: GraphView, t: TxView)
    requires
        alike(g, h),
    ensures
        g.vertex_fault(t) == h.vertex_fault(t),
        g.vertices.contains_key(t.id) == h.vertices.contains_key(t.id),
{
    assert forall|k: TxHash| g.vertices.contains_key(k) == h.vertices.contains_key(k) by {
        assert(g.vertices.dom().contains(k) == h.vertices.dom().contains(k));
    }
    assert(g.vertices.contains_key(t.id) == h.vertices.contains_key(t.id));
    assert(g.vertices.contains_key(t.parent_1) == h.vertices.contains_key(t.parent_1));
    assert(g.vertices.contains_key(t.parent_2) == h.vertices.contains_key(t.parent_2));
}

proof fn lemma_alike_rivals(g: GraphView, h: GraphView, a: TxHash, b: TxHash)
    requires
        alike(g, h),
    ensures
        g.spends(a) == h.spends(a),
        g.rivals(a, b) == h.rivals(a, b),
        g.outranks(a, b) == h.outranks(a, b),
{
    assert(g.vertices.contains_key(a) == h.vertices.contains_key(a)) by {
        assert(g.vertices.dom().contains(a) == h.vertices.dom().contains(a));
    }
    assert(g.vertices.contains_key(b) == h.vertices.contains_key(b)) by {
        assert(g.vertices.dom().contains(b) == h.vertices.dom().contains(b));
    }
}

/// Graphs that are alike have the same winners.
pub proof fn lemma_alike_loses(g: GraphView, h: GraphView, id: TxHash)
    requires
        alike(g, h),
        g.sound(),
    ensures
        g.loses(id) == h.loses(id),
        g.loses(id) ==> g.winner(id) == h.winner(id),
{
    lemma_alike_rivals(g, h, id, id);
    if g.spends(id) {
        law_one_winner_per_nonce(g, id);
        let w = g.winner(id);
        lemma_alike_rivals(g, h, w, id);
        assert(h.wins_over(w, id)) by {
            assert forall|o: TxHash| #[trigger] h.rivals(o, id) && o != w implies h.outranks(
                w,
                o,
            ) by {
                lemma_alike_rivals(g, h, o, id);
                lemma_alike_rivals(g, h, w, o);
                assert(g.rivals(o, id));
            }
        }
        lemma_winner_unique(h, id, w);
    }
}

proof fn lemma_twin_replayed(d: DagView, e: DagView, n: nat)
    requires
        twins(d, e),
        d.graph.sound(),
        n <= d.graph.order.len(),
    ensures
        d.replayed(n) == e.replayed(n),
    decreases n,
{
    if n > 0 {
        lemma_twin_replayed(d, e, (n - 1) as nat);
        let id = d.graph.order[n - 1];
        assert(d.graph.order.contains(id));
        assert(d.graph.vertices.contains_key(id));
        lemma_alike_loses(d.graph, e.graph, id);
        if id == d.graph.genesis_id() {
            assert(d.graph.grounded(0));
            assert(d.graph.order[0] == id);
            assert(d.graph.vertices[id].is_genesis());
            assert(e.graph.vertices[id].is_genesis());
        } else {
            assert(d.graph.vertices[id] == e.graph.vertices[id]);
            assert(d.payout_relays(id) == e.payout_relays(id));
        }
    }
}

proof fn lemma_twin_resolved(d: DagView, e: DagView)
    requires
        twins(d, e),
        d.graph.sound(),
    ensures
        d.resolved().1 == e.resolved().1,
        twins(d.resolved().0, e.resolved().0),
{
    lemma_twin_replayed(d, e, d.graph.order.len());
    assert forall|id: TxHash| #[trigger] d.graph.loses(id) == e.graph.loses(id) && (d.graph.loses(
        id,
    ) ==> d.graph.winner(id) == e.graph.winner(id)) by {
        lemma_alike_loses(d.graph, e.graph, id);
    }
    if d.resolved().1 is None {
        assert(d.resolved().0.conflicts =~= e.resolved().0.conflicts);
    }
}

/// Twins take the same vertices, for the same reason refuse the others, and stay twins.
pub proof fn lemma_twin_accepted(d: DagView, e: DagView, t: TxView)
    requires
        twins(d, e),
        d.graph.sound(),
        d.graph.order.len() > 0,
    ensures
        d.accepted(t).1 == e.accepted(t).1,
        d.accepted(t).1 is Ok ==> twins(d.accepted(t).0, e.accepted(t).0),
        d.accepted(t).1 is Ok ==> d.accepted(t).0.graph.sound(),
        d.accepted(t).1 is Ok ==> d.accepted(t).0.graph.order.len() > 0,
        d.accepted(t).1 is Ok ==> d.accepted(t).0.faucet == d.faucet,
{
    lemma_alike_fault(d.graph, e.graph, t);
    let g = d.graph;
    if !g.vertices.contains_key(t.id) && g.vertex_fault(t) is None {
        assert(!t.is_genesis()) by {
            assert(g.order.contains(g.order[0]));
            assert(g.vertices.contains_key(g.order[0]));
            assert(g.vertices.dom().contains(g.order[0]));
        }
        law_attach_keeps_sound(g, t);
        lemma_with_alike(g, e.graph, t);
        let (s, fault) = d.stored(t);
        let (u, other) = e.stored(t);
        assert(twins(s, u));
        lemma_twin_resolved(s, u);
    }
}

proof fn lemma_twin_replay(d: DagView, e: DagView, txs: Seq<TxView>)
    requires
        twins(d, e),
        d.graph.sound(),
        d.graph.order.len() > 0,
    ensures
        replay(d, txs).1 == replay(e, txs).1,
        replay(d, txs).1 is None ==> {
            &&& twins(replay(d, txs).0, replay(e, txs).0)
            &&& replay(d, txs).0.faucet == d.faucet
            &&& replay(d, txs).0.graph.sound()
        },
    decreases txs.len(),
{
    if txs.len() > 0 {
        lemma_twin_accepted(d, e, txs[0]);
        if d.accepted(txs[0]).1 is Ok {
            lemma_twin_replay(d.accepted(txs[0]).0, e.accepted(txs[0]).0, txs.drop_first());
        }
    }
}

/// Taking vertices only adds to a graph: the attach order grows at its end, and what is
/// stored stays as it is.
proof fn lemma_replay_extends(d: DagView, txs: Seq<TxView>)
    requires
        d.graph.sound(),
        d.graph.order.len() > 0,
        replay(d, txs).1 is None,
    ensures
        ({
            let end = replay(d, txs).0.graph;
            &&& d.graph.order.len() <= end.order.len()
            &&& end.order.take(d.graph.order.len() as int) == d.graph.order
            &&& forall|k: TxHash| #[trigger]
                d.graph.vertices.contains_key(k) ==> end.vertices.contains_key(k)
                    && end.vertices[k] == d.graph.vertices[k]
        }),
    decreases txs.len(),
{
    let end = replay(d, txs).0.graph;
    if txs.len() > 0 {
        let t = txs[0];
        let next = d.accepted(t).0;
        assert(twins(d, d));
        lemma_twin_accepted(d, d, t);
        lemma_stored_first(d.graph);
        lemma_accepted_step(d, t);
        lemma_replay_extends(next, txs.drop_first());
        if !d.graph.vertices.contains_key(t.id) {
            assert(next.graph.order == d.graph.order.push(t.id));
            let n = d.graph.order.len() as int;
            assert(end.order.take(n) =~= end.order.take(n + 1).take(n));
            assert(d.graph.order.push(t.id).take(n) =~= d.graph.order);
            assert forall|k: TxHash| #[trigger]
                d.graph.vertices.contains_key(k) implies end.vertices.contains_key(k)
                && end.vertices[k] == d.graph.vertices[k] by {
                assert(next.graph.vertices.contains_key(k));
            }
        }
    } else {
        assert(end.order.take(end.order.len() as int) =~= end.order);
    }
}

pub proof fn lemma_stored_first(g: GraphView)
    requires
        g.sound(),
        g.order.len() > 0,
    ensures
        g.vertices.dom().len() > 0,
{
    assert(g.order.contains(g.order[0]));
    assert(g.vertices.contains_key(g.order[0]));
    assert(g.vertices.dom().contains(g.order[0]));
}

/// Vertices that come a second time add nothing: taking those that a run has added, in
/// attach order, gives what the run gave.
proof fn lemma_log_is_enough(d: DagView, txs: Seq<TxView>)
    requires
        d.graph.sound(),
        d.graph.order.len() > 0,
        replay(d, txs).1 is None,
    ensures
        replay(d, log_from(replay(d, txs).0.graph, d.graph.order.len() as int)) == replay(d, txs),
    decreases txs.len(),
{
    let end = replay(d, txs).0.graph;
    let n = d.graph.order.len() as int;
    let log = log_from(end, n);
    if txs.len() == 0 {
        assert(log =~= Seq::<TxView>::empty());
    } else {
        let t = txs[0];
        let next = d.accepted(t).0;
        assert(twins(d, d));
        lemma_twin_accepted(d, d, t);
        lemma_stored_first(d.graph);
        lemma_accepted_step(d, t);
        lemma_log_is_enough(next, txs.drop_first());
        if !d.graph.vertices.contains_key(t.id) {
            lemma_replay_extends(next, txs.drop_first());
            assert(next.graph.order == d.graph.order.push(t.id));
            assert(end.order.take(n + 1)[n] == t.id);
            assert(end.order[n] == t.id);
            assert(next.graph.vertices.contains_key(t.id));
            assert(end.vertices[t.id] == t);
            assert(log[0] == t);
            assert(log.drop_first() =~= log_from(end, n + 1));
        }
    }
}

/// What credits make of a state that has none.
pub open spec fn holds_grants(base: DagView, s: DagView) -> bool {
    &&& s.graph == base.graph
    &&& s.relay_of == base.relay_of
    &&& s.conflicts == base.conflicts
    &&& s.ledger == (LedgerView { balances: s.ledger.balances, ..base.ledger })
    &&& s.faucet.dom().finite()
    &&& forall|a: Address| #[trigger] s.faucet.contains_key(a) ==> s.faucet[a] > 0
    &&& s.ledger.balances =~= base.ledger.balances.union_prefer_right(s.faucet)
}

/// A state without credits, in which nobody owns anything.
pub open spec fn is_bare(base: DagView) -> bool {
    &&& base.faucet == Map::<Address, u64>::empty()
    &&& forall|a: Address| #[trigger]
        base.ledger.balances.contains_key(a) ==> base.ledger.balances[a] == 0
}

proof fn lemma_granted(base: DagView, credits: Seq<(Address, u64)>)
    requires
        is_bare(base),
    ensures
        holds_grants(base, granted(base, credits)),
    decreases credits.len(),
{
    if credits.len() == 0 {
        assert(base.ledger.balances =~= base.ledger.balances.union_prefer_right(base.faucet));
    } else {
        lemma_granted(base, credits.drop_last());
        let s = granted(base, credits.drop_last());
        let (a, amount) = credits.last();
        let u = s.funded(a, amount);
        if amount > 0 {
            assert(s.ledger.balance(a) == amount_at(s.faucet, a));
            assert(u.ledger.balances =~= base.ledger.balances.union_prefer_right(u.faucet));
        }
    }
}

pub proof fn lemma_credited(base: DagView, m: Map<Address, u64>, keys: Seq<Address>)
    requires
        is_bare(base),
        keys.no_duplicates(),
        forall|i: int| 0 <= i < keys.len() ==> m.contains_key(#[trigger] keys[i]),
        forall|a: Address| #[trigger] m.contains_key(a) ==> m[a] > 0,
    ensures
        holds_grants(base, credited(base, m, keys)),
        credited(base, m, keys).faucet == m.restrict(keys.to_set()),
    decreases keys.len(),
{
    if keys.len() == 0 {
        assert(base.ledger.balances =~= base.ledger.balances.union_prefer_right(base.faucet));
        assert(m.restrict(keys.to_set()) =~= Map::<Address, u64>::empty());
    } else {
        let head = keys.drop_last();
        assert forall|i: int| 0 <= i < head.len() implies m.contains_key(#[trigger] head[i]) by {
            assert(m.contains_key(keys[i]));
        }
        lemma_credited(base, m, head);
        let s = credited(base, m, head);
        let a = keys.last();
        assert(m.contains_key(keys[keys.len() - 1]));
        let u = s.funded(a, m[a]);
        assert(!head.contains(a));
        assert(!s.faucet.contains_key(a));
        assert(s.ledger.balance(a) == 0);
        assert(u.ledger.balances =~= base.ledger.balances.union_prefer_right(u.faucet));
        assert forall|k: Address| keys.contains(k) == (head.contains(k) || k == a) by {
            if keys.contains(k) {
                let i = choose|i: int| 0 <= i < keys.len() && keys[i] == k;
                if i < head.len() {
                    assert(head[i] == k);
                }
            }
            if head.contains(k) {
                let i = choose|i: int| 0 <= i < head.len() && head[i] == k;
                assert(keys[i] == k);
            }
            assert(keys[keys.len() - 1] == a);
        }
        assert(u.faucet =~= m.restrict(keys.to_set()));
    }
}

/// Two states of genesis alone are twins, and sound.
pub proof fn lemma_genesis_twins(sig: Seq<u8>, other: Seq<u8>)
    requires
        genesis_state(sig).graph.order.len() > 0,
        genesis_state(other).graph.order.len() > 0,
    ensures
        twins(genesis_state(sig), genesis_state(other)),
        is_bare(genesis_state(sig)),
        genesis_state(sig).graph.sound(),
        genesis_state(sig).graph.order.len() == 1,
{
    let a = genesis_state(sig);
    let b = genesis_state(other);
    let t = genesis_tx(sig);
    let u = genesis_tx(other);
    let blank = DagView::blank();
    assert(t.unsigned() == u.unsigned());
    assert(t.id == u.id);
    assert(a.graph == blank.graph.with(t));
    assert(b.graph == blank.graph.with(u));
    assert(a.graph.vertices.dom() =~= set![t.id]);
    assert(b.graph.vertices.dom() =~= set![t.id]);
    crate::dag::weights::lemma_blank_is_weighed(blank.graph);
    assert(blank.graph.sound());
    law_attach_keeps_sound(blank.graph, t);
}

/// A restart gives back the state: on a graph that was credited and then took vertices one
/// after the other, spends that lost their nonce among them, a snapshot of the state and a
/// log of its vertices in attach order are reloaded without a fault. The graph is the same
/// but for the signature of genesis, and the ledger, the credits and the conflict table
/// are the same.
pub proof fn law_restart_gives_back_the_state(
    sig: Seq<u8>,
    credits: Seq<(Address, u64)>,
    txs: Seq<TxView>,
    wal: Seq<u8>,
    other: Seq<u8>,
)
    requires
        genesis_state(sig).graph.order.len() > 0,
        genesis_state(other).graph.order.len() > 0,
        replay(granted(genesis_state(sig), credits), txs).1 is None,
        logged(wal, 0) == attach_log(replay(granted(genesis_state(sig), credits), txs).0.graph),
    ensures
        ({
            let d = replay(granted(genesis_state(sig), credits), txs).0;
            let (again, fault) = reloaded(SnapshotView::of(d, d.faucet), wal, other);
            fault is None && twins(d, again)
        }),
{
    let base = genesis_state(sig);
    let fresh = genesis_state(other);
    lemma_genesis_twins(sig, other);
    lemma_genesis_twins(other, sig);
    lemma_granted(base, credits);
    let start = granted(base, credits);
    let m = start.faucet;
    let keys = ordered(m.dom());
    lemma_ordered_set(m.dom());
    lemma_ascending_distinct(keys);
    assert forall|i: int| 0 <= i < keys.len() implies m.contains_key(#[trigger] keys[i]) by {
        assert(keys.to_set().contains(keys[i]));
    }
    lemma_credited(fresh, m, keys);
    let again = credited(fresh, m, keys);
    assert(again.faucet =~= m);
    assert(again.ledger.balances =~= start.ledger.balances);
    assert(twins(start, again));
    lemma_twin_replay(start, again, txs);
    lemma_log_is_enough(start, txs);
    lemma_twin_replay(start, again, logged(wal, 0));
}

/// Such a restart never stops at a vertex: whatever signature genesis gets, the files load,
/// and give a twin of the state that they were written for.
pub proof fn law_such_files_load(
    sig: Seq<u8>,
    credits: Seq<(Address, u64)>,
    txs: Seq<TxView>,
    wal: Seq<u8>,
    e: DagError,
    found: DagView,
)
    requires
        genesis_state(sig).graph.order.len() > 0,
        replay(granted(genesis_state(sig), credits), txs).1 is None,
        logged(wal, 0) == attach_log(replay(granted(genesis_state(sig), credits), txs).0.graph),
    ensures
        ({
            let d = replay(granted(genesis_state(sig), credits), txs).0;
            let snap = SnapshotView::of(d, d.faucet);
            &&& !refuses_as(snap, wal, e)
            &&& loads_as(snap, wal, found) ==> twins(d, found)
        }),
{
    let d = replay(granted(genesis_state(sig), credits), txs).0;
    let snap = SnapshotView::of(d, d.faucet);
    assert forall|other: Seq<u8>| genesis_state(other).graph.order.len() > 0 implies (
    #[trigger] reloaded(snap, wal, other)).1 is None && twins(
        d,
        reloaded(snap, wal, other).0,
    ) by {
        law_restart_gives_back_the_state(sig, credits, txs, wal, other);
    }
}

/// Twins show the same vertex set, tips, supply and counter.
pub proof fn law_twins_look_the_same(d: DagView, e: DagView)
    requires
        twins(d, e),
    ensures
        d.graph.vertices.dom() == e.graph.vertices.dom(),
        d.graph.tips == e.graph.tips,
        d.ledger.supply == e.ledger.supply,
        d.ledger.count == e.ledger.count,
{
}

proof fn lemma_replayed_error(d: DagView, n: nat)
    ensures
        d.replayed(n).error is Some ==> d.replayed(n).error == Some(DagError::Overflow),
    decreases n,
{
    if n > 0 {
        lemma_replayed_error(d, (n - 1) as nat);
    }
}

/// Whatever credits a restart begins with, also where some were given between the vertices,
/// it stops at a logged vertex only where a sum overflows.
pub proof fn law_restart_stops_only_at_overflow(d: DagView, again: DagView, txs: Seq<TxView>)
    requires
        alike(d.graph, again.graph),
        d.graph.sound(),
        d.graph.order.len() > 0,
        replay(d, txs).1 is None,
    ensures
        replay(again, txs).1 is Some ==> replay(again, txs).1 == Some(DagError::Overflow),
    decreases txs.len(),
{
    if txs.len() > 0 {
        let t = txs[0];
        assert(twins(d, d));
        lemma_twin_accepted(d, d, t);
        lemma_alike_fault(d.graph, again.graph, t);
        lemma_stored_first(d.graph);
        lemma_accepted_step(d, t);
        let (s, fault) = again.stored(t);
        lemma_replayed_error(s, s.graph.order.len());
        if again.accepted(t).1 is Ok {
            if !d.graph.vertices.contains_key(t.id) {
                lemma_with_alike(d.graph, again.graph, t);
            }
            law_restart_stops_only_at_overflow(
                d.accepted(t).0,
                again.accepted(t).0,
                txs.drop_first(),
            );
        }
    }
}

} // verus!
