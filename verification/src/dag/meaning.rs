//! What signed bytes, tips, draws, inventories and duty cycles are for.

use vstd::prelude::*;

use crate::bytes::{be_value, le_bytes, lemma_array_view_eq, lemma_key_injective, lemma_le_bytes_len, lemma_le_value_of_bytes,
    lemma_pow256_values};
use crate::crypto::hash::sha256_of;
use crate::crypto::lattice::{address_of, keys_match, signature_accepted, PK_LEN};
use crate::crypto::mobile_only::HostObservation;
use crate::dag::engine::{bodies, composed, draw_total, draw_weight, drawn, in_order,
    parents_admissible, AttachingDevice};
use crate::dag::error::DagError;
use crate::dag::model::{amount_at, is_lost_spend, parents_in, DagView, GraphView};
use crate::dag::ordering::{batch_of, free_ids, grown, incoming_order};
use crate::dag::reconciliation::{advertised_tips, is_have, needed, stops};
use crate::dag::tx::{assembled, relay_message, DagTransaction, TxHash, TxView, NULL_PARENT};
use crate::dag::wallet_relay::{cycle_ended_early, cycle_result, is_carried, LinkView};
use crate::kron::bech32::kron_text;
use crate::kron::wallet::KronKeypair;
use crate::table::{ascending, lemma_ascending_distinct, lemma_ordered_set, ordered};
use crate::types::Address;

verus! {

/// What a sender signs fixes the transfer: two transfers with the same signed bytes have the
/// same parents, sender, recipient, amount, fee, nonce and key.
pub proof fn law_signed_bytes_fix_the_transfer(t: TxView, u: TxView)
    requires
        t.public_key.len() == PK_LEN,
        u.public_key.len() == PK_LEN,
        t.unsigned() == u.unsigned(),
    ensures
        t.parent_1 == u.parent_1,
        t.parent_2 == u.parent_2,
        t.sender == u.sender,
        t.recipient == u.recipient,
        t.amount == u.amount,
        t.fee == u.fee,
        t.nonce == u.nonce,
        t.public_key == u.public_key,
{
    broadcast use lemma_le_bytes_len;

    let a = t.unsigned();
    let b = u.unsigned();
    assert(a.subrange(0, 32) =~= t.parent_1@ && b.subrange(0, 32) =~= u.parent_1@);
    assert(a.subrange(32, 64) =~= t.parent_2@ && b.subrange(32, 64) =~= u.parent_2@);
    assert(a.subrange(64, 96) =~= t.sender@ && b.subrange(64, 96) =~= u.sender@);
    assert(a.subrange(96, 128) =~= t.recipient@ && b.subrange(96, 128) =~= u.recipient@);
    lemma_array_view_eq(t.parent_1, u.parent_1);
    lemma_array_view_eq(t.parent_2, u.parent_2);
    lemma_array_view_eq(t.sender, u.sender);
    lemma_array_view_eq(t.recipient, u.recipient);
    assert(a.subrange(128, 136) =~= le_bytes(t.amount as nat, 8));
    assert(b.subrange(128, 136) =~= le_bytes(u.amount as nat, 8));
    assert(a.subrange(136, 144) =~= le_bytes(t.fee as nat, 8));
    assert(b.subrange(136, 144) =~= le_bytes(u.fee as nat, 8));
    assert(a.subrange(144, 152) =~= le_bytes(t.nonce as nat, 8));
    assert(b.subrange(144, 152) =~= le_bytes(u.nonce as nat, 8));
    lemma_pow256_values();
    lemma_le_value_of_bytes(t.amount as nat, 8);
    lemma_le_value_of_bytes(u.amount as nat, 8);
    lemma_le_value_of_bytes(t.fee as nat, 8);
    lemma_le_value_of_bytes(u.fee as nat, 8);
    lemma_le_value_of_bytes(t.nonce as nat, 8);
    lemma_le_value_of_bytes(u.nonce as nat, 8);
    assert(a.subrange(157, 157 + PK_LEN as int) =~= t.public_key);
    assert(b.subrange(157, 157 + PK_LEN as int) =~= u.public_key);
}

/// What a wallet composes is what was asked for: a transfer from the wallet to the recipient
/// over the amount, at the fixed fee, with the sender's next nonce, no carriers, and an id
/// over what is signed. Its parents are two different tips where there are two, and else the
/// only tip and genesis.
pub proof fn law_composed_is_what_was_asked(
    d: DagView,
    wallet: &KronKeypair,
    recipient: Address,
    amount: u64,
    tx: DagTransaction,
)
    requires
        composed(d, wallet, recipient, amount, Ok(tx)),
        d.graph.tips.finite(),
    ensures
        tx@.sender == address_of(wallet.public_bytes()),
        tx@.public_key == wallet.public_bytes(),
        tx@.recipient == recipient,
        tx@.amount == amount,
        tx@.fee == 1_000,
        tx@.nonce == amount_at(d.ledger.nonces, wallet.ledger_address()),
        tx@.sender_kron1 == kron_text(tx@.sender@),
        tx@.recipient_kron1 == kron_text(recipient@),
        tx@.relay_nodes.len() == 0,
        tx@.relay_proofs.len() == 0,
        tx@.id == sha256_of(tx@.unsigned()),
        wallet.matched() ==> signature_accepted(
            wallet.public_bytes(),
            tx@.unsigned(),
            tx@.signature,
        ),
        d.graph.tips.len() >= 2 ==> {
            &&& d.graph.tips.contains(tx@.parent_1)
            &&& d.graph.tips.contains(tx@.parent_2)
            &&& tx@.parent_1 != tx@.parent_2
        },
        d.graph.tips.len() == 1 ==> {
            &&& d.graph.tips.contains(tx@.parent_1)
            &&& tx@.parent_2 == d.graph.genesis_id()
        },
{
    lemma_parents_by_count(d.graph, tx@.parent_1, tx@.parent_2);
    let t = tx@;
    assert(t == assembled(
        t.parent_1,
        t.parent_2,
        wallet.public_bytes(),
        recipient,
        amount,
        1_000,
        d.ledger.nonce(wallet.ledger_address()),
        t.signature,
    ));
    assert((TxView { id: NULL_PARENT, ..t }).unsigned() == t.unsigned());
}

proof fn lemma_parents_by_count(g: GraphView, a: TxHash, b: TxHash)
    requires
        parents_admissible(g, a, b),
        g.tips.finite(),
    ensures
        g.tips.len() >= 2 ==> g.tips.contains(a) && g.tips.contains(b) && a != b,
        g.tips.len() == 1 ==> g.tips.contains(a) && b == g.genesis_id(),
        g.tips.len() == 0 ==> a == NULL_PARENT && b == NULL_PARENT,
{
    if g.tips.len() == 0 {
        assert(g.tips =~= Set::<TxHash>::empty());
    } else {
        let x = g.tips.choose();
        assert(g.tips.contains(x));
        assert(g.tips != Set::<TxHash>::empty());
        let rest = g.tips.remove(x);
        if g.tips.len() == 1 {
            assert(rest.len() == 0);
            assert(rest =~= Set::<TxHash>::empty());
            assert forall|p: TxHash, q: TxHash| g.tips.contains(p) && g.tips.contains(q) implies p
                == q by {
                assert(!rest.contains(p) && !rest.contains(q));
            }
        } else {
            let y = rest.choose();
            assert(rest.contains(y));
            assert(g.tips.contains(x) && g.tips.contains(y) && x != y);
        }
    }
}

/// Two phones that pick parents pick stored vertices: what selection returns is in the graph.
pub proof fn law_selected_parents_are_stored(g: GraphView, a: TxHash, b: TxHash)
    requires
        g.sound(),
        g.order.len() > 0,
        parents_admissible(g, a, b),
    ensures
        g.vertices.contains_key(a),
        g.vertices.contains_key(b),
{
    let last = g.order.last();
    crate::dag::laws::lemma_last_is_tip(g);
    assert(g.tips.contains(last));
    assert(g.order.contains(g.order[0]));
    assert(g.vertices.contains_key(g.order[0]));
}

/// Attaching makes the new vertex a tip and its parents no tips; every other vertex is a tip
/// if it was one. The new vertex is a child of its parents and of nothing else. What was
/// stored stays as it was, in its place of the attach order.
pub proof fn law_attach_moves_the_tips(g: GraphView, t: TxView, h: TxHash)
    requires
        g.sound(),
        g.order.len() > 0,
        g.vertex_fault(t) is None,
    ensures
        ({
            let n = g.with(t);
            &&& n.tips.contains(t.id)
            &&& !n.tips.contains(t.parent_1)
            &&& !n.tips.contains(t.parent_2)
            &&& h != t.id && h != t.parent_1 && h != t.parent_2 ==> n.tips.contains(h)
                == g.tips.contains(h)
            &&& n.vertices.contains_key(t.id) && n.vertices[t.id] == t
            &&& h != t.id ==> n.vertices.contains_key(h) == g.vertices.contains_key(h)
                && n.vertices[h] == g.vertices[h]
            &&& g.vertices.contains_key(h) ==> (n.children[h].contains(t.id) <==> h == t.parent_1
                || h == t.parent_2)
            &&& n.order == g.order.push(t.id)
            &&& n.genesis == g.genesis
        }),
{
    let n = g.with(t);
    crate::dag::model::law_attach_keeps_sound(g, t);
    assert(g.order.contains(g.order[0]));
    assert(g.vertices.contains_key(g.order[0]));
    assert(g.vertices.dom().contains(g.order[0]));
    assert(!t.is_genesis());
    assert(t.parent_1 != t.id && t.parent_2 != t.id);
    if g.vertices.contains_key(h) {
        assert(n.vertices.contains_key(h));
        assert(n.children[h].contains(t.id) <==> n.names_parent(t.id, h));
        if h == NULL_PARENT {
            assert(t.parent_1 != h && t.parent_2 != h);
        }
    }
}

/// The tips of a graph are the stored vertices that no stored vertex names as a parent.
pub proof fn law_tips_are_the_unapproved(g: GraphView, h: TxHash)
    requires
        g.sound(),
        h != NULL_PARENT,
    ensures
        g.tips.contains(h) <==> g.vertices.contains_key(h) && forall|c: TxHash| #[trigger]
            g.vertices.contains_key(c) ==> g.vertices[c].parent_1 != h && g.vertices[c].parent_2
                != h,
{
    if g.vertices.contains_key(h) {
        if g.tips.contains(h) {
            assert forall|c: TxHash| #[trigger] g.vertices.contains_key(c) implies
                g.vertices[c].parent_1 != h && g.vertices[c].parent_2 != h by {
                assert(g.children[h].contains(c) <==> g.names_parent(c, h));
                assert(!g.children[h].contains(c));
            }
        }
        if forall|c: TxHash| #[trigger]
            g.vertices.contains_key(c) ==> g.vertices[c].parent_1 != h && g.vertices[c].parent_2
                != h {
            assert forall|c: TxHash| !g.children[h].contains(c) by {
                if g.children[h].contains(c) {
                    assert(g.names_parent(c, h));
                }
            }
            assert(g.children[h] =~= Set::<TxHash>::empty());
        }
    }
}

/// Asking for bodies gives those that are stored, in the order asked for, and no others.
pub proof fn law_bodies_are_those_asked_for(g: GraphView, ids: Seq<TxHash>)
    ensures
        bodies(g, ids) == ids.filter(|h: TxHash| g.vertices.contains_key(h)).map_values(
            |h: TxHash| g.vertices[h],
        ),
    decreases ids.len(),
{
    let f = |h: TxHash| g.vertices.contains_key(h);
    let m = |h: TxHash| g.vertices[h];
    reveal(Seq::filter);
    if ids.len() > 0 {
        law_bodies_are_those_asked_for(g, ids.drop_last());
        assert(bodies(g, ids) =~= ids.filter(f).map_values(m));
    } else {
        assert(bodies(g, ids) =~= ids.filter(f).map_values(m));
    }
}

/// Asking for bodies in attach order gives the wanted ones in the order of the graph.
pub proof fn law_wanted_come_in_attach_order(order: Seq<TxHash>, wanted: Set<TxHash>)
    ensures
        in_order(order, wanted) == order.filter(|h: TxHash| wanted.contains(h)),
    decreases order.len(),
{
    reveal(Seq::filter);
    if order.len() > 0 {
        law_wanted_come_in_attach_order(order.drop_last(), wanted);
    }
}

/// A child is drawn by as many tickets as it weighs: of the tickets below the sum of all
/// weights, child `i` gets those from the sum before it on, one per unit of its weight, and a
/// child without a weight gets one.
pub proof fn law_tickets_go_by_weight(
    w: Map<TxHash, u64>,
    kids: Seq<TxHash>,
    i: int,
    ticket: u64,
)
    requires
        0 <= i < kids.len(),
        draw_total(w, kids, kids.len()) < u64::MAX,
        draw_total(w, kids, i as nat) <= ticket < draw_total(w, kids, (i + 1) as nat),
    ensures
        drawn(w, kids, 0, ticket) == kids[i],
        draw_total(w, kids, (i + 1) as nat) - draw_total(w, kids, i as nat) == (
        if w.contains_key(kids[i]) && w[kids[i]] >= 1 {
            w[kids[i]] as int
        } else {
            1
        }),
{
    lemma_draw_below(w, kids, (i + 1) as nat, kids.len());
    lemma_drawn_from(w, kids, 0, i, ticket);
    lemma_draw_sum(w, kids, i as nat);
}

proof fn lemma_draw_below(w: Map<TxHash, u64>, kids: Seq<TxHash>, m: nat, n: nat)
    requires
        m <= n,
    ensures
        draw_total(w, kids, m) <= draw_total(w, kids, n),
    decreases n,
{
    if m < n {
        lemma_draw_below(w, kids, m, (n - 1) as nat);
    }
}

proof fn lemma_draw_sum(w: Map<TxHash, u64>, kids: Seq<TxHash>, i: nat)
    requires
        draw_total(w, kids, i + 1) < u64::MAX,
    ensures
        draw_total(w, kids, i + 1) == draw_total(w, kids, i) + draw_weight(w, kids[i as int]),
{
}

/// From child `k` on with what is left of a ticket.
proof fn lemma_drawn_from(w: Map<TxHash, u64>, kids: Seq<TxHash>, k: nat, i: int, ticket: u64)
    requires
        k <= i < kids.len(),
        draw_total(w, kids, (i + 1) as nat) < u64::MAX,
        draw_total(w, kids, i as nat) <= ticket < draw_total(w, kids, (i + 1) as nat),
    ensures
        drawn(w, kids, k, (ticket - draw_total(w, kids, k)) as u64) == kids[i],
    decreases i - k,
{
    lemma_draw_below(w, kids, k, i as nat);
    lemma_draw_below(w, kids, k + 1, (i + 1) as nat);
    lemma_draw_sum(w, kids, k);
    if k < i {
        lemma_draw_below(w, kids, k + 1, i as nat);
        lemma_drawn_from(w, kids, k + 1, i, ticket);
    }
}

/// What a phone asks for is exactly what was advertised and is not stored.
pub proof fn law_need_is_what_is_missing(g: GraphView, listed: Set<TxHash>, h: TxHash)
    requires
        h != NULL_PARENT,
    ensures
        needed(g, listed).contains(h) <==> listed.contains(h) && !g.vertices.contains_key(h),
{
}

/// What a phone offers leaves nothing out: where a peer that lists a vertex lists its parents
/// too, every stored vertex that the peer does not list is offered, genesis aside.
pub proof fn law_have_leaves_nothing_out(
    g: GraphView,
    listed: Set<TxHash>,
    have: Set<TxHash>,
    h: TxHash,
)
    requires
        g.sound(),
        is_have(g, listed, have),
        !g.vertices.contains_key(NULL_PARENT),
        forall|c: TxHash, p: TxHash|
            #![trigger listed.contains(c), g.names_parent(c, p)]
            listed.contains(c) && g.names_parent(c, p) && p != g.genesis_id() ==> listed.contains(
                p,
            ),
    ensures
        have.contains(h) <==> g.vertices.contains_key(h) && !listed.contains(h) && h
            != g.genesis_id(),
{
    if g.vertices.contains_key(h) && !listed.contains(h) && h != g.genesis_id() {
        assert(g.order.contains(h));
        let i = choose|i: int| 0 <= i < g.order.len() && g.order[i] == h;
        lemma_offered(g, listed, have, i);
    }
}

proof fn lemma_offered(g: GraphView, listed: Set<TxHash>, have: Set<TxHash>, i: int)
    requires
        g.sound(),
        is_have(g, listed, have),
        !g.vertices.contains_key(NULL_PARENT),
        forall|c: TxHash, p: TxHash|
            #![trigger listed.contains(c), g.names_parent(c, p)]
            listed.contains(c) && g.names_parent(c, p) && p != g.genesis_id() ==> listed.contains(
                p,
            ),
        0 <= i < g.order.len(),
        !listed.contains(g.order[i]),
        g.order[i] != g.genesis_id(),
    ensures
        have.contains(g.order[i]),
    decreases g.order.len() - i,
{
    let h = g.order[i];
    assert(g.order.contains(h));
    assert(g.vertices.contains_key(h));
    assert(!stops(g, listed, h));
    if !g.tips.contains(h) {
        assert(g.children[h] != Set::<TxHash>::empty());
        assert(exists|c: TxHash| g.children[h].contains(c)) by {
            if forall|c: TxHash| !g.children[h].contains(c) {
                assert(g.children[h] =~= Set::<TxHash>::empty());
            }
        }
        let c = choose|c: TxHash| g.children[h].contains(c);
        assert(g.names_parent(c, h));
        assert(g.order.contains(c));
        let j = choose|j: int| 0 <= j < g.order.len() && g.order[j] == c;
        assert(g.grounded(j));
        let before = g.order.take(j);
        assert(j > 0);
        assert(before.contains(h));
        let k = choose|k: int| 0 <= k < before.len() && before[k] == h;
        assert(g.order[k] == h);
        assert(k == i);
        assert(!listed.contains(c));
        assert(c != g.genesis_id());
        lemma_offered(g, listed, have, j);
        let ps = parents_in(g.vertices, c);
        assert(ps.contains(h)) by {
            if g.vertices[c].parent_1 == h {
                assert(ps[0] == h);
            } else {
                assert(ps[ps.len() - 1] == h);
            }
        }
    }
}

/// Paying out the accrued shares gives each relay what it has accrued, on top of what it has,
/// and gives nobody else anything.
pub proof fn law_accrued_shares_are_paid_out(d: DagView, a: Address)
    requires
        amount_at(d.ledger.balances, a) + amount_at(d.ledger.relay_credits, a) <= u64::MAX,
        amount_at(d.faucet, a) + amount_at(d.ledger.relay_credits, a) <= u64::MAX,
    ensures
        ({
            let e = d.relays_funded();
            &&& amount_at(e.ledger.balances, a) == amount_at(d.ledger.balances, a) + amount_at(
                d.ledger.relay_credits,
                a,
            )
            &&& amount_at(e.faucet, a) == amount_at(d.faucet, a) + amount_at(
                d.ledger.relay_credits,
                a,
            )
            &&& e.ledger.relay_credits == d.ledger.relay_credits
            &&& e.ledger.nonces == d.ledger.nonces
            &&& e.ledger.supply == d.ledger.supply
            &&& e.graph == d.graph
        }),
{
}

/// Carrying adds the carrier and its proof, and nothing else: it is listed once, its proof is
/// the last one, signed over the id of the transfer, and all that the sender said is kept.
pub proof fn law_carrying_adds_the_carrier(
    before: TxView,
    after: TxView,
    pk: Seq<u8>,
    sk: Seq<u8>,
)
    requires
        is_carried(before, after, pk, sk),
        before.relay_nodes.no_duplicates(),
    ensures
        after == (TxView {
            relay_nodes: after.relay_nodes,
            relay_proofs: after.relay_proofs,
            ..before
        }),
        after.relay_nodes.contains(address_of(pk)),
        after.relay_nodes.no_duplicates(),
        before.relay_nodes.is_prefix_of(after.relay_nodes),
        after.relay_nodes.len() <= before.relay_nodes.len() + 1,
        after.relay_proofs.len() == before.relay_proofs.len() + 1,
        before.relay_proofs.is_prefix_of(after.relay_proofs),
        after.relay_proofs.last().node == address_of(pk),
        after.relay_proofs.last().public_key == pk,
        keys_match(pk, sk) ==> signature_accepted(
            pk,
            relay_message(before.id, pk)@,
            after.relay_proofs.last().sig,
        ),
{
    let node = address_of(pk);
    if before.relay_nodes.contains(node) {
        assert(after.relay_nodes == before.relay_nodes);
    } else {
        assert(after.relay_nodes == before.relay_nodes.push(node));
        assert(after.relay_nodes[before.relay_nodes.len() as int] == node);
    }
}

/// A duty cycle empties the queue. What it carried joins the pool behind what was there, of
/// which the newest thirty-two stay, in their order. With the link up the pool is handed over
/// behind what was handed over before, and is empty; with the link down nothing is.
pub proof fn law_duty_cycle_hands_over(
    link: LinkView,
    pool: Seq<TxView>,
    signed: Seq<TxView>,
    link_after: LinkView,
    pool_after: Seq<TxView>,
)
    requires
        cycle_result(link, pool, signed, link_after, pool_after),
    ensures
        ({
            let all = pool + signed;
            let dropped = if all.len() > 32 {
                all.len() - 32
            } else {
                0
            };
            &&& link_after.inbound.len() == 0
            &&& link_after.global_link_up == link.global_link_up
            &&& link_after.stop == link.stop
            &&& link.global_link_up ==> pool_after.len() == 0 && link_after.flush_ready
                == link.flush_ready + all.skip(dropped)
            &&& !link.global_link_up ==> pool_after == all.skip(dropped) && link_after.flush_ready
                == link.flush_ready
        }),
{
    let all = pool + signed;
    assert(all.skip(0) =~= all);
}

/// Of two spends of one nonce the heavier one goes before, and of two of one weight the one with
/// the greater id. One of two always does, and never both.
pub proof fn law_one_of_two_spends_goes_before(g: GraphView, a: TxHash, b: TxHash)
    requires
        a != b,
    ensures
        amount_of(g, a) > amount_of(g, b) ==> g.outranks(a, b) && !g.outranks(b, a),
        amount_of(g, a) == amount_of(g, b) && be_value(a@) > be_value(b@) ==> g.outranks(a, b)
            && !g.outranks(b, a),
        g.outranks(a, b) != g.outranks(b, a),
{
    if be_value(a@) == be_value(b@) {
        lemma_key_injective(a, b);
    }
}

/// The weight of a vertex, nothing for one that is not there.
pub open spec fn amount_of(g: GraphView, h: TxHash) -> int {
    if g.weights.contains_key(h) {
        g.weights[h] as int
    } else {
        0
    }
}

/// What the conflict table says after a rebuild: of a spend that lost its nonce who won it, of
/// one that could not be paid nobody, and of every other vertex nothing. The graph stays.
pub proof fn law_losers_are_marked(d: DagView, id: TxHash)
    requires
        d.resolved().1 is None,
    ensures
        ({
            let r = d.resolved().0;
            let w = d.graph.winner(id);
            &&& r.graph == d.graph
            &&& r.faucet == d.faucet
            &&& r.relay_of == d.relay_of
            &&& d.graph.spends(id) && w != id ==> r.conflicts.contains_key(id) && r.conflicts[id] == w
            &&& r.conflicts.contains_key(id) && r.conflicts[id] != NULL_PARENT ==> d.graph.spends(
                id,
            ) && w != id && r.conflicts[id] == w
            &&& r.conflicts.contains_key(id) && !d.graph.loses(id) ==> r.conflicts[id]
                == NULL_PARENT && d.replayed(d.graph.order.len()).failed.contains(id)
        }),
{
}

/// A spend is lost to another one by a nonce that is taken or by an empty account, and by
/// nothing else.
pub proof fn law_how_a_spend_is_lost(e: DagError)
    ensures
        is_lost_spend(e) <==> e is DoubleSpend || e is InsufficientBalance,
{
}

/// A batch holds what came in, by id: the first of those that share one.
pub proof fn law_batch_holds_what_came(txs: Seq<TxView>, n: nat, i: int)
    requires
        0 <= i < n <= txs.len(),
    ensures
        batch_of(txs, n).contains_key(txs[i].id),
        (forall|j: int| 0 <= j < i ==> (#[trigger] txs[j]).id != txs[i].id) ==> batch_of(txs, n)[
            txs[i].id
        ] == txs[i],
    decreases n,
{
    let before = batch_of(txs, (n - 1) as nat);
    if i < n - 1 {
        law_batch_holds_what_came(txs, (n - 1) as nat, i);
    } else if forall|j: int| 0 <= j < i ==> (#[trigger] txs[j]).id != txs[i].id {
        lemma_batch_ids(txs, (n - 1) as nat, txs[i].id);
    }
}

proof fn lemma_batch_ids(txs: Seq<TxView>, n: nat, id: TxHash)
    requires
        n <= txs.len(),
        forall|j: int| 0 <= j < n ==> (#[trigger] txs[j]).id != id,
    ensures
        !batch_of(txs, n).contains_key(id),
    decreases n,
{
    if n > 0 {
        lemma_batch_ids(txs, (n - 1) as nat, id);
        assert(txs[n - 1].id != id);
    }
}

/// A batch holds nothing that did not come in.
pub proof fn law_batch_holds_no_more(txs: Seq<TxView>, n: nat, id: TxHash)
    requires
        n <= txs.len(),
        batch_of(txs, n).contains_key(id),
    ensures
        exists|i: int| 0 <= i < n && (#[trigger] txs[i]).id == id && batch_of(txs, n)[id] == txs[i],
    decreases n,
{
    let before = batch_of(txs, (n - 1) as nat);
    if n > 0 {
        if before.contains_key(id) {
            law_batch_holds_no_more(txs, (n - 1) as nat, id);
        } else {
            assert(txs[n - 1].id == id);
        }
    }
}

/// Who may attach: a local graph on every host, a miner and a relay on the hosts that are let
/// through.
pub proof fn law_who_may_attach(host: &HostObservation)
    ensures
        AttachingDevice::LocalGraph.host_fault(host) is None,
        AttachingDevice::Miner.host_fault(host) is None <==> host.refusal() is None,
        host.refusal() matches Some(e) ==> AttachingDevice::Miner.host_fault(host) == Some(
            DagError::Shield(e),
        ),
{
}

/// A duty cycle that ends early loses the vertex that could not be signed and no other: those
/// before it are pooled, those behind it still wait, and nothing was handed over.
pub proof fn law_early_end_loses_one(
    link: LinkView,
    pool: Seq<TxView>,
    signed: Seq<TxView>,
    link_after: LinkView,
    pool_after: Seq<TxView>,
    i: int,
)
    requires
        cycle_ended_early(link, pool, signed, link_after, pool_after),
    ensures
        link_after.inbound.len() + signed.len() + 1 == link.inbound.len(),
        0 <= i < link_after.inbound.len() ==> link_after.inbound[i] == link.inbound[i + signed.len()
            + 1],
        link_after.flush_ready == link.flush_ready,
        link_after.global_link_up == link.global_link_up,
        pool.len() + signed.len() <= 32 ==> pool_after == pool + signed,
{
}

/// What a graph advertises of its tips: all of them where there is room for them, and else the
/// lowest ids, in ascending order.
pub proof fn law_lowest_tips_are_advertised(g: GraphView, h: TxHash, k: TxHash)
    requires
        g.tips.finite(),
    ensures
        ({
            let l = advertised_tips(g);
            &&& l.len() <= 4_096
            &&& g.tips.len() <= 4_096 ==> l.len() == g.tips.len()
            &&& l.contains(h) ==> g.tips.contains(h)
            &&& g.tips.len() <= 4_096 && g.tips.contains(h) ==> l.contains(h)
            &&& g.tips.contains(h) && !l.contains(h) && l.contains(k) ==> be_value(k@) < be_value(h@)
            &&& ascending(l)
        }),
{
    let q = ordered(g.tips);
    let l = advertised_tips(g);
    lemma_ordered_set(g.tips);
    assert(ascending(q) && q.to_set() == g.tips);
    lemma_ascending_distinct(q);
    q.unique_seq_to_set();
    assert(q.contains(h) <==> q.to_set().contains(h));
    if l.contains(h) {
        let i = choose|i: int| 0 <= i < l.len() && l[i] == h;
        assert(q[i] == h);
    }
    if g.tips.contains(h) && !l.contains(h) && l.contains(k) {
        let i = choose|i: int| 0 <= i < l.len() && l[i] == k;
        let j = choose|j: int| 0 <= j < q.len() && q[j] == h;
        assert(q[i] == k);
        if j < l.len() {
            assert(l[j] == h);
        }
    }
    assert forall|i: int, j: int|
        #![trigger l[i], l[j]]
        0 <= i < j < l.len() implies be_value(l[i]@) < be_value(l[j]@) by {
        assert(q[i] == l[i] && q[j] == l[j]);
    }
}

/// Vertices that wait for nothing are taken first, the lower ids before the higher ones.
pub proof fn law_free_vertices_go_first(b: Map<TxHash, TxView>, local: Set<TxHash>, i: int, j: int)
    requires
        b.dom().finite(),
        0 <= i < j < free_ids(b, local).len(),
    ensures
        j < incoming_order(b, local).len(),
        free_ids(b, local).contains(incoming_order(b, local)[i]),
        be_value(incoming_order(b, local)[i]@) < be_value(incoming_order(b, local)[j]@),
{
    let s = free_ids(b, local);
    assert(s.finite()) by {
        assert(s.subset_of(b.dom()));
        vstd::set_lib::lemma_len_subset(s, b.dom());
    }
    let q = ordered(s);
    lemma_ordered_set(s);
    lemma_ascending_distinct(q);
    q.unique_seq_to_set();
    lemma_line_grows(b, local, q, 0, b.dom().len());
    let o = incoming_order(b, local);
    assert(o[i] == q[i] && o[j] == q[j]);
    assert(q.to_set().contains(q[i]));
}

proof fn lemma_line_grows(
    b: Map<TxHash, TxView>,
    local: Set<TxHash>,
    line: Seq<TxHash>,
    at: nat,
    fuel: nat,
)
    ensures
        grown(b, local, line, at, fuel).len() >= line.len(),
        forall|i: int|
            0 <= i < line.len() ==> #[trigger] grown(b, local, line, at, fuel)[i] == line[i],
    decreases fuel,
{
    if fuel > 0 && at < line.len() {
        let more = line + ordered(
            crate::dag::ordering::released(
                b,
                local,
                line[at as int],
                line.take(at as int).to_set(),
            ),
        );
        lemma_line_grows(b, local, more, at + 1, (fuel - 1) as nat);
        let all = grown(b, local, line, at, fuel);
        assert forall|i: int| 0 <= i < line.len() implies #[trigger] all[i] == line[i] by {
            assert(more[i] == line[i]);
        }
    }
}

} // verus!
