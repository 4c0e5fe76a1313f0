//! What attaching, minting, merging and rebuilding mean for each single account.

use vstd::prelude::*;

use crate::crypto::lattice::{address_of, signature_accepted};
use crate::dag::error::DagError;
use crate::dag::laws::{law_relay_payouts_conserve, law_transfer_takes_fee, lemma_total_insert,
    payouts_from, total};
use crate::dag::model::{amount_at, relay_payout, DagView, LedgerView};
use crate::dag::tx::{distinct, relay_message, TxView, NULL_PARENT};
use crate::economics::{law_subsidy_respects_cap, share, tx_subsidy, DAG_MINER_SHARE_PERCENT,
    HARD_CAP};
use crate::kron::bech32::kron_text;
use crate::types::Address;

verus! {

/// The list that pays each relay once: it names the same relays, none of them twice, and is
/// the list itself where no relay was named twice.
pub proof fn law_repeated_relays_count_once(s: Seq<Address>)
    ensures
        distinct(s).no_duplicates(),
        forall|a: Address| #[trigger] distinct(s).contains(a) <==> s.contains(a),
        s.no_duplicates() ==> distinct(s) == s,
        s.len() > 0 ==> distinct(s).len() > 0 && distinct(s)[0] == s[0],
    decreases s.len(),
{
    if s.len() > 0 {
        let head = s.drop_last();
        let last = s.last();
        law_repeated_relays_count_once(head);
        assert(s =~= head.push(last));
        assert forall|a: Address| #[trigger] distinct(s).contains(a) <==> s.contains(a) by {
            let d = distinct(head);
            assert(d.contains(a) <==> head.contains(a));
            assert(d.contains(last) <==> head.contains(last));
            if head.contains(a) {
                let i = choose|i: int| 0 <= i < head.len() && head[i] == a;
                assert(s[i] == a);
                let j = choose|j: int| 0 <= j < d.len() && d[j] == a;
                assert(distinct(s)[j] == a);
            }
            if a == last {
                assert(s[s.len() - 1] == a);
                if !d.contains(last) {
                    assert(distinct(s)[d.len() as int] == last);
                }
            }
            if s.contains(a) {
                let i = choose|i: int| 0 <= i < s.len() && s[i] == a;
                if i < head.len() {
                    assert(head[i] == a);
                }
            }
            if distinct(s).contains(a) {
                let j = choose|j: int| 0 <= j < distinct(s).len() && distinct(s)[j] == a;
                if j < d.len() {
                    assert(d[j] == a);
                }
            }
        }
        if s.no_duplicates() {
            assert(head.no_duplicates());
            assert(!head.contains(last));
        }
    }
}

/// What relay `a` of the list gets, from number `i` on.
spec fn part_from(relays: Seq<Address>, i: nat, a: Address, pot: int) -> int
    decreases relays.len() - i,
{
    if i >= relays.len() {
        0
    } else if relays[i as int] == a {
        relay_payout(relays.len(), i, pot as u64) as int
    } else {
        part_from(relays, i + 1, a, pot)
    }
}

proof fn lemma_part_absent(relays: Seq<Address>, i: nat, a: Address, pot: int)
    requires
        forall|j: int| i <= j < relays.len() ==> relays[j] != a,
    ensures
        part_from(relays, i, a, pot) == 0,
    decreases relays.len() - i,
{
    if i < relays.len() {
        lemma_part_absent(relays, i + 1, a, pot);
    }
}

proof fn lemma_part_present(relays: Seq<Address>, i: nat, k: int, pot: int)
    requires
        relays.no_duplicates(),
        i <= k < relays.len(),
    ensures
        part_from(relays, i, relays[k], pot) == relay_payout(relays.len(), k as nat, pot as u64),
    decreases relays.len() - i,
{
    if i < k {
        lemma_part_present(relays, i + 1, k, pot);
    }
}

/// What each account has after relays number `i` and on were paid.
proof fn lemma_relays_paid_each(
    l: LedgerView,
    relays: Seq<Address>,
    i: nat,
    pot: u64,
    a: Address,
)
    requires
        relays.no_duplicates(),
        l.relays_paid(relays, i, pot).1,
    ensures
        ({
            let n = l.relays_paid(relays, i, pot).0;
            &&& amount_at(n.balances, a) == amount_at(l.balances, a) + part_from(
                relays,
                i,
                a,
                pot as int,
            )
            &&& amount_at(n.relay_credits, a) == amount_at(l.relay_credits, a) + part_from(
                relays,
                i,
                a,
                pot as int,
            )
            &&& n.nonces == l.nonces
            &&& n.supply == l.supply
            &&& n.count == l.count
        }),
    decreases relays.len() - i,
{
    if i < relays.len() {
        let pay = relay_payout(relays.len(), i, pot);
        let b = relays[i as int];
        let paid = l.credited(b, pay);
        let accrued = amount_at(paid.relay_credits, b);
        let next = LedgerView {
            relay_credits: paid.relay_credits.insert(b, (accrued + pay) as u64),
            ..paid
        };
        lemma_relays_paid_each(next, relays, i + 1, pot, a);
        if a == b {
            assert forall|j: int| i + 1 <= j < relays.len() implies relays[j] != a by {
                assert(relays[j] != relays[i as int]);
            }
            lemma_part_absent(relays, i + 1, a, pot as int);
        }
    }
}

/// What relay `a` gets of the pot in plain numbers.
proof fn lemma_part_is_equal(relays: Seq<Address>, a: Address, pot: u64)
    requires
        relays.no_duplicates(),
    ensures
        part_from(relays, 0, a, pot as int) == (if relays.contains(a) {
            pot as int / relays.len() as int + (if relays[0] == a {
                pot as int % relays.len() as int
            } else {
                0
            })
        } else {
            0
        }),
{
    if relays.contains(a) {
        let k = choose|k: int| 0 <= k < relays.len() && relays[k] == a;
        lemma_part_present(relays, 0, k, pot as int);
        let n = relays.len() as int;
        let p = pot as int;
        vstd::arithmetic::div_mod::lemma_fundamental_div_mod(p, n);
        assert(0 <= p / n <= p && 0 <= p / n + p % n <= p) by (nonlinear_arith)
            requires
                n >= 1,
                p >= 0,
                p == n * (p / n) + p % n,
                0 <= p % n < n,
        ;
        if k > 0 {
            assert(relays[0] != relays[k]);
        }
    } else {
        lemma_part_absent(relays, 0, a, pot as int);
    }
}

/// A mint that succeeds, account by account. The pool is what the supply grew by and the fee.
/// Without relays the miner gets all of it. With relays the miner gets 80% of it, rounded
/// down; each relay gets an equal part of the rest, the first also what the division leaves,
/// as balance and as accrued credit. Nobody else gets anything.
pub proof fn law_mint_pays_each_account(
    l: LedgerView,
    fee: u64,
    miner: Address,
    relays: Seq<Address>,
    a: Address,
)
    requires
        l.minted(fee, miner, relays).1,
        relays.no_duplicates(),
        (fee + 100_000) * 80 <= u64::MAX,
    ensures
        ({
            let n = l.minted(fee, miner, relays).0;
            let pool = n.supply - l.supply + fee;
            let pot = if relays.len() == 0 {
                0
            } else {
                pool - pool * 80 / 100
            };
            let carried = if relays.contains(a) {
                pot / relays.len() as int + (if a == relays[0] {
                    pot % relays.len() as int
                } else {
                    0
                })
            } else {
                0
            };
            let mined = if a == miner {
                pool - pot
            } else {
                0
            };
            &&& amount_at(n.balances, a) == amount_at(l.balances, a) + mined + carried
            &&& amount_at(n.relay_credits, a) == amount_at(l.relay_credits, a) + carried
            &&& n.nonces == l.nonces
            &&& n.count == l.count + 1
            &&& l.supply <= n.supply <= l.supply + 100_000
        }),
{
    let subsidy = tx_subsidy(l.count, l.supply);
    if l.supply < HARD_CAP {
        law_subsidy_respects_cap(l.count, l.supply);
    }
    let pool = (subsidy + fee) as u64;
    assert(pool * 80 <= u64::MAX);
    let cut = share(pool, DAG_MINER_SHARE_PERCENT);
    assert(cut == pool * 80 / 100);
    law_repeated_relays_count_once(relays);
    let rs = distinct(relays);
    assert(rs == relays);
    let pay = if rs.len() == 0 {
        pool
    } else {
        cut
    };
    let mid = l.credited(miner, pay);
    let pot = (pool - cut) as u64;
    lemma_relays_paid_each(mid, relays, 0, pot, a);
    lemma_part_is_equal(relays, a, pot);
    assert(amount_at(mid.balances, a) == amount_at(l.balances, a) + (if a == miner {
        pay as int
    } else {
        0
    }));
}

/// The supply grows by the subsidy.
pub proof fn lemma_minted_supply(l: LedgerView, fee: u64, miner: Address, relays: Seq<Address>)
    requires
        l.minted(fee, miner, relays).1,
    ensures
        l.minted(fee, miner, relays).0.supply - l.supply == tx_subsidy(l.count, l.supply),
{
    let subsidy = tx_subsidy(l.count, l.supply);
    if l.supply < HARD_CAP {
        law_subsidy_respects_cap(l.count, l.supply);
    }
    let pool = (subsidy + fee) as u64;
    let cut = share(pool, DAG_MINER_SHARE_PERCENT);
    let rs = distinct(relays);
    law_repeated_relays_count_once(relays);
    let pay = if rs.len() == 0 {
        pool
    } else {
        cut
    };
    lemma_relays_paid_each(l.credited(miner, pay), rs, 0, (pool - cut) as u64, miner);
}

/// Naming a relay twice changes nothing.
pub proof fn law_relay_is_paid_once(l: LedgerView, fee: u64, miner: Address, relays: Seq<Address>)
    ensures
        l.minted(fee, miner, relays) == l.minted(fee, miner, distinct(relays)),
{
    law_repeated_relays_count_once(relays);
    law_repeated_relays_count_once(distinct(relays));
}

/// A transfer and its mint, account by account: the sender loses amount and fee, the
/// recipient gets the amount, the sender as miner and the relays share what was minted and
/// the fee. The nonce of the sender moves on by one and no other does.
pub proof fn law_confirmation_pays_each_account(
    l: LedgerView,
    t: TxView,
    relays: Seq<Address>,
    a: Address,
)
    requires
        l.applied(t, relays).1 is None,
        relays.no_duplicates(),
        (t.fee + 100_000) * 80 <= u64::MAX,
    ensures
        ({
            let n = l.applied(t, relays).0;
            let pool = n.supply - l.supply + t.fee;
            let pot = if relays.len() == 0 {
                0
            } else {
                pool - pool * 80 / 100
            };
            let carried = if relays.contains(a) {
                pot / relays.len() as int + (if a == relays[0] {
                    pot % relays.len() as int
                } else {
                    0
                })
            } else {
                0
            };
            let sent = if a == t.sender {
                t.amount + t.fee
            } else {
                0
            };
            let received = if a == t.recipient {
                t.amount as int
            } else {
                0
            };
            let mined = if a == t.sender {
                pool - pot
            } else {
                0
            };
            &&& amount_at(n.balances, a) == amount_at(l.balances, a) - sent + received + mined
                + carried
            &&& amount_at(n.relay_credits, a) == amount_at(l.relay_credits, a) + carried
            &&& a != t.sender ==> amount_at(n.nonces, a) == amount_at(l.nonces, a)
            &&& amount_at(l.nonces, t.sender) == t.nonce
            &&& t.nonce < u64::MAX ==> amount_at(n.nonces, t.sender) == t.nonce + 1
            &&& n.count == l.count + 1
            &&& l.supply <= n.supply <= l.supply + 100_000
        }),
{
    let m = l.transferred(t);
    assert(m.supply == l.supply && m.relay_credits == l.relay_credits);
    law_mint_pays_each_account(m, t.fee, t.sender, relays, a);
}

/// A transfer alone, account by account: the sender loses exactly amount and fee, the
/// recipient gets exactly the amount, and nobody else is touched.
pub proof fn law_transfer_moves_the_amount(l: LedgerView, t: TxView, a: Address)
    requires
        l.transfer_fault(t) is None,
    ensures
        ({
            let n = l.transferred(t);
            &&& t.sender != t.recipient ==> {
                &&& amount_at(n.balances, t.sender) == amount_at(l.balances, t.sender) - t.amount
                    - t.fee
                &&& amount_at(n.balances, t.recipient) == amount_at(l.balances, t.recipient)
                    + t.amount
            }
            &&& t.sender == t.recipient ==> amount_at(n.balances, t.sender) == amount_at(
                l.balances,
                t.sender,
            ) - t.fee
            &&& a != t.sender && a != t.recipient ==> amount_at(n.balances, a) == amount_at(
                l.balances,
                a,
            )
            &&& n.supply == l.supply
            &&& n.count == l.count
            &&& n.relay_credits == l.relay_credits
        }),
{
}

/// Attaching a transfer, account by account, for every amount: the sender pays amount and
/// the fixed fee, the recipient gets the amount, and subsidy and fee are shared 80% to the
/// sender as miner and 20% to the relays in equal parts, or all to the sender without relays.
/// The vertex is stored, and nothing else of the state changes.
pub proof fn law_attach_pays_each_account(
    d: DagView,
    t: TxView,
    relays: Seq<Address>,
    a: Address,
)
    requires
        d.attached(t, true, relays).1 is None,
        t.parent_1 != NULL_PARENT || t.parent_2 != NULL_PARENT,
        relays.no_duplicates(),
    ensures
        ({
            let e = d.attached(t, true, relays).0;
            let old = d.ledger;
            let new = e.ledger;
            let pool = new.supply - old.supply + 1_000;
            let pot = if relays.len() == 0 {
                0
            } else {
                pool - pool * 80 / 100
            };
            let carried = if relays.contains(a) {
                pot / relays.len() as int + (if a == relays[0] {
                    pot % relays.len() as int
                } else {
                    0
                })
            } else {
                0
            };
            let sent = if a == t.sender {
                t.amount + 1_000
            } else {
                0
            };
            let received = if a == t.recipient {
                t.amount as int
            } else {
                0
            };
            let mined = if a == t.sender {
                pool - pot
            } else {
                0
            };
            &&& amount_at(new.balances, a) == amount_at(old.balances, a) - sent + received + mined
                + carried
            &&& amount_at(new.relay_credits, a) == amount_at(old.relay_credits, a) + carried
            &&& a != t.sender ==> amount_at(new.nonces, a) == amount_at(old.nonces, a)
            &&& t.nonce < u64::MAX ==> amount_at(new.nonces, t.sender) == amount_at(
                old.nonces,
                t.sender,
            ) + 1
            &&& new.count == old.count + 1
            &&& old.supply <= new.supply <= old.supply + 100_000
            &&& e.graph.vertices == d.graph.vertices.insert(t.id, t)
            &&& e.graph.order == d.graph.order.push(t.id)
            &&& e.relay_of == d.relay_of
            &&& e.faucet == d.faucet
            &&& e.conflicts == d.conflicts
        }),
{
    assert(!t.is_genesis());
    assert(d.graph.vertex_fault(t) is None);
    assert(t.fee == 1_000);
    law_confirmation_pays_each_account(d.ledger, t, relays, a);
}

/// Two accounts hold no more than all of them together.
proof fn lemma_two_within_total(m: Map<Address, u64>, a: Address, b: Address)
    requires
        m.dom().finite(),
        a != b,
    ensures
        amount_at(m, a) + amount_at(m, b) <= total(m),
{
    lemma_total_insert(m, a, 0);
    lemma_total_insert(m.insert(a, 0), b, 0);
}

proof fn lemma_payout_within(n: nat, i: nat, pot: u64)
    requires
        i < n,
    ensures
        relay_payout(n, i, pot) <= pot,
{
    let p = pot as int;
    let k = n as int;
    vstd::arithmetic::div_mod::lemma_fundamental_div_mod(p, k);
    assert(0 <= p / k <= p && 0 <= p / k + p % k <= p) by (nonlinear_arith)
        requires
            k >= 1,
            p >= 0,
            p == k * (p / k) + p % k,
            0 <= p % k < k,
    ;
}

proof fn lemma_relays_fit(l: LedgerView, relays: Seq<Address>, i: nat, pot: u64)
    requires
        relays.no_duplicates(),
        i <= relays.len(),
        l.balances.dom().finite(),
        total(l.balances) + payouts_from(relays.len(), i, pot) <= u64::MAX,
        forall|j: int|
            i <= j < relays.len() ==> amount_at(l.relay_credits, #[trigger] relays[j]) + pot
                <= u64::MAX,
    ensures
        l.relays_paid(relays, i, pot).1,
    decreases relays.len() - i,
{
    if i < relays.len() {
        let pay = relay_payout(relays.len(), i, pot);
        let a = relays[i as int];
        lemma_payout_within(relays.len(), i, pot);
        lemma_total_insert(l.balances, a, 0);
        assert(l.can_credit(a, pay));
        lemma_total_insert(l.balances, a, (l.balance(a) + pay) as u64);
        let paid = l.credited(a, pay);
        let accrued = amount_at(paid.relay_credits, a);
        assert(amount_at(l.relay_credits, relays[i as int]) + pot <= u64::MAX);
        let next = LedgerView {
            relay_credits: paid.relay_credits.insert(a, (accrued + pay) as u64),
            ..paid
        };
        assert forall|j: int| i + 1 <= j < relays.len() implies amount_at(
            next.relay_credits,
            #[trigger] relays[j],
        ) + pot <= u64::MAX by {
            assert(relays[j] != relays[i as int]);
        }
        lemma_relays_fit(next, relays, i + 1, pot);
    }
}

/// A transfer that its sender can pay for, with the next nonce and the fixed fee, is applied,
/// whoever carried it, as long as all balances together and the counters are short of what a
/// number holds.
pub proof fn law_affordable_transfer_applies(l: LedgerView, t: TxView, relays: Seq<Address>)
    requires
        t.nonce == amount_at(l.nonces, t.sender),
        t.fee == 1_000,
        t.amount + 1_000 <= amount_at(l.balances, t.sender),
        l.balances.dom().finite(),
        total(l.balances) + 100_000 <= u64::MAX,
        forall|a: Address| #[trigger] amount_at(l.relay_credits, a) + 101_000 <= u64::MAX,
        l.count < u64::MAX,
    ensures
        l.applied(t, relays).1 is None,
{
    if t.sender != t.recipient {
        lemma_two_within_total(l.balances, t.sender, t.recipient);
    }
    assert(l.transfer_fault(t) is None);
    law_transfer_takes_fee(l, t);
    let m = l.transferred(t);
    let subsidy = tx_subsidy(l.count, l.supply);
    if l.supply < HARD_CAP {
        law_subsidy_respects_cap(l.count, l.supply);
    }
    let pool = (subsidy + t.fee) as u64;
    let cut = share(pool, DAG_MINER_SHARE_PERCENT);
    let rs = distinct(relays);
    law_repeated_relays_count_once(relays);
    let pay = if rs.len() == 0 {
        pool
    } else {
        cut
    };
    lemma_total_insert(m.balances, t.sender, 0);
    assert(m.can_credit(t.sender, pay));
    lemma_total_insert(m.balances, t.sender, (m.balance(t.sender) + pay) as u64);
    let mid = m.credited(t.sender, pay);
    let pot = (pool - cut) as u64;
    if rs.len() > 0 {
        law_relay_payouts_conserve(rs.len(), pot);
        lemma_relays_fit(mid, rs, 0, pot);
    }
    lemma_relays_keep_count(mid, rs, 0, pot);
}

proof fn lemma_relays_keep_count(l: LedgerView, relays: Seq<Address>, i: nat, pot: u64)
    ensures
        l.relays_paid(relays, i, pot).0.count == l.count,
    decreases relays.len() - i,
{
    if i < relays.len() {
        let pay = relay_payout(relays.len(), i, pot);
        let a = relays[i as int];
        if l.can_credit(a, pay) {
            let paid = l.credited(a, pay);
            let accrued = amount_at(paid.relay_credits, a);
            if accrued + pay <= u64::MAX {
                lemma_relays_keep_count(
                    LedgerView {
                        relay_credits: paid.relay_credits.insert(a, (accrued + pay) as u64),
                        ..paid
                    },
                    relays,
                    i + 1,
                    pot,
                );
            }
        }
    }
}

/// When a transfer is attached. Short of an overflow that is: exactly where its id is new,
/// both parents are stored, the fee is the fixed one, the key is the sender's and signed the
/// transfer with its display texts, every named carrier is proven, the nonce is the sender's
/// next one, and the sender has amount and fee.
pub proof fn law_when_a_transfer_attaches(d: DagView, t: TxView, relays: Seq<Address>)
    requires
        t.parent_1 != NULL_PARENT || t.parent_2 != NULL_PARENT,
        d.ledger.balances.dom().finite(),
        total(d.ledger.balances) + 100_000 <= u64::MAX,
        forall|a: Address| #[trigger] amount_at(d.ledger.relay_credits, a) + 101_000 <= u64::MAX,
        d.ledger.count < u64::MAX,
    ensures
        d.attached(t, true, relays).1 is None <==> {
            &&& !d.graph.vertices.contains_key(t.id)
            &&& t.parent_1 != NULL_PARENT && d.graph.vertices.contains_key(t.parent_1)
            &&& t.parent_2 != NULL_PARENT && d.graph.vertices.contains_key(t.parent_2)
            &&& t.fee == 1_000
            &&& address_of(t.public_key) == t.sender
            &&& t.sender_kron1 == kron_text(t.sender@)
            &&& t.recipient_kron1 == kron_text(t.recipient@)
            &&& signature_accepted(t.public_key, t.unsigned(), t.signature)
            &&& t.relays_proven()
            &&& t.nonce == amount_at(d.ledger.nonces, t.sender)
            &&& t.amount + 1_000 <= amount_at(d.ledger.balances, t.sender)
        },
        d.attached(t, true, relays).1 is Some ==> d.attached(t, true, relays).0 == d,
{
    if d.graph.vertex_fault(t) is None && d.ledger.transfer_fault(t) is None {
        law_affordable_transfer_applies(d.ledger, t, relays);
    }
    if d.ledger.transfer_fault(t) == Some(DagError::Overflow) && t.amount + t.fee
        <= amount_at(d.ledger.balances, t.sender) {
        lemma_two_within_total(d.ledger.balances, t.sender, t.recipient);
    }
}

/// A carrier counts as proven exactly where it signed for this transfer: every carrier that is
/// named has a proof, and every proof names a listed carrier, under its own key, over this id.
pub proof fn law_carriers_have_signed(t: TxView)
    ensures
        t.relays_proven() <==> {
            &&& forall|a: Address| #[trigger]
                t.relay_nodes.contains(a) <==> exists|j: int|
                    0 <= j < t.relay_proofs.len() && (#[trigger] t.relay_proofs[j]).node == a
            &&& forall|j: int|
                0 <= j < t.relay_proofs.len() ==> {
                    let p = #[trigger] t.relay_proofs[j];
                    &&& address_of(p.public_key) == p.node
                    &&& signature_accepted(p.public_key, relay_message(t.id, p.public_key)@, p.sig)
                }
        },
{
    let named = |a: Address| exists|j: int|
        0 <= j < t.relay_proofs.len() && (#[trigger] t.relay_proofs[j]).node == a;
    if t.relays_proven() {
        assert forall|a: Address| #[trigger] t.relay_nodes.contains(a) <==> named(a) by {
            if t.relay_nodes.contains(a) {
                let i = choose|i: int| 0 <= i < t.relay_nodes.len() && t.relay_nodes[i] == a;
                assert(t.has_proof(t.relay_nodes[i]));
            }
            if named(a) {
                let j = choose|j: int|
                    0 <= j < t.relay_proofs.len() && (#[trigger] t.relay_proofs[j]).node == a;
                assert(t.proof_holds(j));
            }
        }
        assert forall|j: int| 0 <= j < t.relay_proofs.len() implies {
            let p = #[trigger] t.relay_proofs[j];
            &&& address_of(p.public_key) == p.node
            &&& signature_accepted(p.public_key, relay_message(t.id, p.public_key)@, p.sig)
        } by {
            assert(t.proof_holds(j));
        }
    }
    if (forall|a: Address| #[trigger] t.relay_nodes.contains(a) <==> named(a)) && (forall|j: int|
        0 <= j < t.relay_proofs.len() ==> {
            let p = #[trigger] t.relay_proofs[j];
            &&& address_of(p.public_key) == p.node
            &&& signature_accepted(p.public_key, relay_message(t.id, p.public_key)@, p.sig)
        }) {
        assert forall|i: int| 0 <= i < t.relay_nodes.len() implies t.has_proof(
            #[trigger] t.relay_nodes[i],
        ) by {
            assert(t.relay_nodes.contains(t.relay_nodes[i]));
            assert(named(t.relay_nodes[i]));
        }
        assert forall|j: int| 0 <= j < t.relay_proofs.len() implies #[trigger] t.proof_holds(j) by {
            assert(named(t.relay_proofs[j].node));
            assert(t.relay_nodes.contains(t.relay_proofs[j].node));
        }
        if t.relay_nodes.len() == 0 && t.relay_proofs.len() > 0 {
            assert(named(t.relay_proofs[0].node));
            assert(t.relay_nodes.contains(t.relay_proofs[0].node));
        }
    }
}

/// A credit reaches its account alone, as balance and as part of the baseline of rebuilds.
pub proof fn law_credit_reaches_its_account(d: DagView, a: Address, amount: u64, b: Address)
    requires
        amount_at(d.ledger.balances, a) + amount <= u64::MAX,
        amount_at(d.faucet, a) + amount <= u64::MAX,
    ensures
        ({
            let e = d.funded(a, amount);
            &&& amount_at(e.ledger.balances, a) == amount_at(d.ledger.balances, a) + amount
            &&& amount_at(e.faucet, a) == amount_at(d.faucet, a) + amount
            &&& b != a ==> amount_at(e.ledger.balances, b) == amount_at(d.ledger.balances, b)
            &&& b != a ==> amount_at(e.faucet, b) == amount_at(d.faucet, b)
            &&& e.graph == d.graph
            &&& e.ledger.nonces == d.ledger.nonces
            &&& e.ledger.supply == d.ledger.supply
            &&& e.ledger.count == d.ledger.count
            &&& e.ledger.relay_credits == d.ledger.relay_credits
        }),
{
}

/// Why a transfer is refused: the first that holds of being stored already, naming a parent that
/// is not, another fee than the fixed one, an address that is not its key's, a signature that does
/// not hold, a carrier that did not sign, a nonce that is not the sender's next, and an account
/// that cannot pay. Nothing changes then.
pub proof fn law_why_a_transfer_is_refused(d: DagView, t: TxView, relays: Seq<Address>)
    requires
        t.parent_1 != NULL_PARENT,
        t.parent_2 != NULL_PARENT,
        t.amount <= u64::MAX - 1_000,
    ensures
        ({
            let (e, r) = d.attached(t, true, relays);
            let fresh = !d.graph.vertices.contains_key(t.id);
            let first = d.graph.vertices.contains_key(t.parent_1);
            let placed = fresh && first && d.graph.vertices.contains_key(t.parent_2);
            let paid = placed && t.fee == 1_000;
            let owned = paid && address_of(t.public_key) == t.sender;
            let signed = owned && t.signature_holds();
            let sound = signed && t.relays_proven();
            let next = sound && t.nonce == amount_at(d.ledger.nonces, t.sender);
            &&& !fresh ==> r == Some(DagError::DuplicateTx(t.id)) && e == d
            &&& fresh && !first ==> r == Some(DagError::UnknownParent(t.parent_1)) && e == d
            &&& fresh && first && !placed ==> r == Some(DagError::UnknownParent(t.parent_2)) && e
                == d
            &&& placed && !paid ==> r == Some(DagError::InvalidFee) && e == d
            &&& paid && !owned ==> r == Some(DagError::AddressMismatch) && e == d
            &&& owned && !signed ==> r == Some(DagError::InvalidSignature) && e == d
            &&& signed && !sound ==> r == Some(DagError::InvalidRelayProof) && e == d
            &&& sound && !next ==> r == Some(DagError::DoubleSpend { nonce: t.nonce }) && e == d
            &&& next && amount_at(d.ledger.balances, t.sender) < t.amount + 1_000 ==> r == Some(
                DagError::InsufficientBalance,
            ) && e == d
        }),
{
}

} // verus!
