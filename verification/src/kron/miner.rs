//! Active phone miner: lattice work, then a share attached to the DAG.
//!
//! Phone-only: a host that is no phone is refused before anything is minted.

use vstd::prelude::*;

use crate::bytes::le_bytes;
use crate::crypto::lattice::{expand_matrix, matrix_vec, N};
use crate::crypto::mobile_only::{enforce_real_mobile, HostObservation, ShieldError};
use crate::dag::accounts::law_attach_pays_each_account;
use crate::dag::engine::{genesis_laid, genesis_refused, genesis_tx, signing_error, AttachingDevice,
    KronDAG};
use crate::dag::error::DagError;
use crate::dag::model::{amount_at, DagView};
use crate::dag::tx::{assembled, DagTransaction, TxView, NULL_PARENT};
use crate::economics::FIXED_TRANSACTION_FEE;
use crate::kron::wallet::{KronKeypair, KronWallet};
use crate::types::Address;

verus! {

/// What a share costs its sender: one unit and the fee.
pub const SHARE_COST: u64 = 1_001;

/// Result of a bounded miner burst.
#[derive(Clone, Copy, Debug, PartialEq, Eq, Structural)]
pub struct MinerLoopOutcome {
    pub attached: u32,
    pub work_units: u32,
}

/// Why a tick attached a share or stopped short.
#[derive(Clone, Copy, Debug, PartialEq, Eq, Structural)]
pub enum MinerTickStatus {
    Attached,
    WaitingForTips,
    WaitingForBalance,
    ComposeFailed,
    AttachFailed,
}

impl MinerTickStatus {
    pub fn as_str(self) -> (r: &'static str)
        ensures
            r@ == (match self {
                MinerTickStatus::Attached => "share attached"@,
                MinerTickStatus::WaitingForTips => "waiting for tips/genesis"@,
                MinerTickStatus::WaitingForBalance => "waiting for balance"@,
                MinerTickStatus::ComposeFailed => "compose failed"@,
                MinerTickStatus::AttachFailed => "attach failed"@,
            }),
    {
        match self {
            MinerTickStatus::Attached => "share attached",
            MinerTickStatus::WaitingForTips => "waiting for tips/genesis",
            MinerTickStatus::WaitingForBalance => "waiting for balance",
            MinerTickStatus::ComposeFailed => "compose failed",
            MinerTickStatus::AttachFailed => "attach failed",
        }
    }
}

/// One miner step. Never waits for the network or for peers.
#[derive(Debug)]
pub struct MinerTickOutcome {
    pub genesis_created: bool,
    pub faucet_credited: u64,
    pub attached: bool,
    pub work_units: u32,
    pub vertices: usize,
    pub tips: usize,
    pub supply: u64,
    pub balance: u64,
    pub tx: Option<DagTransaction>,
    pub status: MinerTickStatus,
    pub error: Option<String>,
}

/// One unit of lattice work: a matrix-vector product that is not kept.
fn poucw_work(step: u32) {
    let mut buf: Vec<u8> = Vec::new();
    crate::bytes::put_u32(&mut buf, step);
    let mut k: usize = 0;
    while k < 28
        invariant
            k <= 28,
            buf@ == le_bytes(step as nat, 4) + Seq::new(k as nat, |i: int| 0x4Bu8),
        decreases 28 - k,
    {
        buf.push(0x4B);
        k += 1;
        assert(buf@ =~= le_bytes(step as nat, 4) + Seq::new(k as nat, |i: int| 0x4Bu8));
    }
    proof {
        crate::bytes::lemma_le_bytes_len(step as nat, 4);
    }
    let seed = crate::bytes::array32(buf.as_slice(), 0);
    let a = expand_matrix(&seed);
    let mut v: Vec<i64> = Vec::new();
    let mut i: usize = 0;
    while i < N
        invariant
            i <= N,
        decreases N - i,
    {
        v.push(((i % 7) as i64) - 3);
        i += 1;
    }
    let _ = matrix_vec(a.as_slice(), v.as_slice());
}

/// A share that the wallet may compose on `d`: one unit to `dest`.
pub open spec fn is_share(d: DagView, wallet: &KronKeypair, dest: Address, t: TxView) -> bool {
    &&& crate::dag::engine::parents_admissible(d.graph, t.parent_1, t.parent_2)
    &&& t == assembled(
        t.parent_1,
        t.parent_2,
        wallet.public_bytes(),
        dest,
        1,
        FIXED_TRANSACTION_FEE,
        d.ledger.nonce(wallet.ledger_address()),
        t.signature,
    )
    &&& wallet.matched() ==> t.signature_holds()
}

/// `d` with the shares attached one after the other.
pub open spec fn with_shares(
    d: DagView,
    shares: Seq<TxView>,
    device: AttachingDevice,
    host: &HostObservation,
) -> DagView
    decreases shares.len(),
{
    if shares.len() == 0 {
        d
    } else {
        with_shares(d, shares.drop_last(), device, host).attached_as(shares.last(), device, host).0
    }
}

/// Each share was composed on what the ones before it left, could be paid for, and
/// was attached.
pub open spec fn shares_hold(
    d: DagView,
    shares: Seq<TxView>,
    wallet: &KronKeypair,
    dest: Address,
    device: AttachingDevice,
    host: &HostObservation,
) -> bool
    decreases shares.len(),
{
    shares.len() > 0 ==> {
        let before = with_shares(d, shares.drop_last(), device, host);
        &&& shares_hold(d, shares.drop_last(), wallet, dest, device, host)
        &&& before.ledger.balance(wallet.ledger_address()) >= SHARE_COST
        &&& is_share(before, wallet, dest, shares.last())
        &&& before.attached_as(shares.last(), device, host).1 is None
    }
}

/// The active miner loop, `steps` long. The wallet has to be in miner mode and the
/// host has to be a phone. A step that the balance does not cover attaches nothing.
pub fn run_active_miner_loop(
    wallet: &KronWallet,
    dag: &mut KronDAG,
    dest: Address,
    steps: u32,
    host: &HostObservation,
) -> (r: Result<MinerLoopOutcome, ShieldError>)
    requires
        old(dag).wf(),
    ensures
        final(dag).wf(),
        !wallet.mines() ==> r == Err::<MinerLoopOutcome, ShieldError>(
            ShieldError::MinerModeRequired,
        ) && final(dag)@ == old(dag)@,
        wallet.mines() && host.refusal() is Some ==> r == Err::<MinerLoopOutcome, ShieldError>(
            host.refusal().unwrap(),
        ) && final(dag)@ == old(dag)@,
        wallet.mines() && host.refusal() is None && (steps == 0 || old(dag)@.ledger.balance(
            crate::crypto::lattice::address_of(wallet.public_bytes()),
        ) < SHARE_COST) ==> (r matches Ok(out) && out.attached == 0 && out.work_units == steps
            && final(dag)@ == old(dag)@),
        wallet.mines() && host.refusal() is None ==> match r {
            Ok(out) => {
                &&& out.work_units == steps
                &&& out.attached <= steps
                &&& out.attached == steps || final(dag)@.ledger.balance(
                    crate::crypto::lattice::address_of(wallet.public_bytes()),
                ) < SHARE_COST
                &&& burst_ended(old(dag)@, wallet, dest, host, out.attached as nat, final(dag)@)
            },
            Err(e) => e == ShieldError::AttachFailed && burst_failed(
                old(dag)@,
                wallet,
                dest,
                host,
                steps as nat,
                final(dag)@,
            ),
        },
{
    if !wallet.miner_mode() {
        return Err(ShieldError::MinerModeRequired);
    }
    match enforce_real_mobile(host) {
        Ok(()) => {},
        Err(e) => {
            return Err(e);
        },
    }
    let keys = wallet.keypair();
    let sender = keys.public_key().address();
    let ghost start = dag@;
    let ghost device = AttachingDevice::Miner;
    let ghost mut shares: Seq<TxView> = Seq::empty();
    let mut attached: u32 = 0;
    let mut step: u32 = 0;
    assert(keys_of(wallet, keys));
    while step < steps
        invariant
            dag.wf(),
            wallet.mines(),
            start == old(dag)@,
            step <= steps,
            attached <= step,
            attached == shares.len(),
            host.refusal() is None,
            device == AttachingDevice::Miner,
            keys_of(wallet, keys),
            sender == keys.ledger_address(),
            dag@ == with_shares(start, shares, device, host),
            shares_hold(start, shares, keys, dest, device, host),
            attached == step || dag@.ledger.balance(sender) < SHARE_COST,
            start.ledger.balance(sender) < SHARE_COST ==> shares.len() == 0,
        decreases steps - step,
    {
        poucw_work(step);
        if dag.balance(&sender) >= SHARE_COST {
            match dag.compose_and_sign(keys, dest, 1) {
                Err(_) => {
                    proof {
                        assert(burst_stopped(
                            start,
                            wallet,
                            dest,
                            host,
                            keys,
                            shares,
                            steps as nat,
                            dag@,
                        ));
                    }
                    return Err(ShieldError::AttachFailed);
                },
                Ok(tx) => {
                    let ghost t = tx@;
                    let ghost before = dag@;
                    match dag.attach_and_verify_for(tx, AttachingDevice::Miner, host) {
                        Ok(()) => {
                            attached = attached + 1;
                            proof {
                                assert(shares.push(t).drop_last() =~= shares);
                                shares = shares.push(t);
                            }
                        },
                        Err(e) => {
                            proof {
                                assert(refused_share(before, t, device, host, e, dag@));
                                assert(burst_stopped(
                                    start,
                                    wallet,
                                    dest,
                                    host,
                                    keys,
                                    shares,
                                    steps as nat,
                                    dag@,
                                ));
                            }
                            return Err(ShieldError::AttachFailed);
                        },
                    }
                },
            }
        }
        step += 1;
    }
    proof {
        assert(burst_of(start, wallet, dest, host, keys, shares, dag@));
    }
    Ok(MinerLoopOutcome { attached, work_units: steps })
}

/// Whether `keys` are the keys of a wallet.
pub open spec fn keys_of(wallet: &KronWallet, keys: &KronKeypair) -> bool {
    keys.public_bytes() == wallet.public_bytes() && keys.secret_bytes() == wallet.secret_bytes()
}

/// The state after a burst that attached `shares`.
pub open spec fn burst_of(
    start: DagView,
    wallet: &KronWallet,
    dest: Address,
    host: &HostObservation,
    keys: &KronKeypair,
    shares: Seq<TxView>,
    end: DagView,
) -> bool {
    &&& keys_of(wallet, keys)
    &&& shares_hold(start, shares, keys, dest, AttachingDevice::Miner, host)
    &&& end == with_shares(start, shares, AttachingDevice::Miner, host)
}

/// The state after a burst that attached `n` shares.
pub open spec fn burst_ended(
    start: DagView,
    wallet: &KronWallet,
    dest: Address,
    host: &HostObservation,
    n: nat,
    end: DagView,
) -> bool {
    exists|keys: &KronKeypair, shares: Seq<TxView>|
        shares.len() == n && #[trigger] burst_of(start, wallet, dest, host, keys, shares, end)
}

/// The state after a burst of `steps` that failed behind `shares`, with the next share
/// covered: what they left, where that share could not be signed, or what the refused
/// share left of it.
pub open spec fn burst_stopped(
    start: DagView,
    wallet: &KronWallet,
    dest: Address,
    host: &HostObservation,
    keys: &KronKeypair,
    shares: Seq<TxView>,
    steps: nat,
    end: DagView,
) -> bool {
    let before = with_shares(start, shares, AttachingDevice::Miner, host);
    &&& keys_of(wallet, keys)
    &&& shares.len() < steps
    &&& shares_hold(start, shares, keys, dest, AttachingDevice::Miner, host)
    &&& before.ledger.balance(keys.ledger_address()) >= SHARE_COST
    &&& end == before || exists|t: TxView, e: DagError|
        is_share(before, keys, dest, t) && #[trigger] refused_share(
            before,
            t,
            AttachingDevice::Miner,
            host,
            e,
            end,
        )
}

pub open spec fn burst_failed(
    start: DagView,
    wallet: &KronWallet,
    dest: Address,
    host: &HostObservation,
    steps: nat,
    end: DagView,
) -> bool {
    exists|keys: &KronKeypair, shares: Seq<TxView>| #[trigger]
        burst_stopped(start, wallet, dest, host, keys, shares, steps, end)
}

/// What a tick credits: enough for one share, and only on a graph that holds no more
/// than genesis.
pub open spec fn tick_gift(d: DagView, sender: Address) -> u64 {
    if d.graph.vertices.dom().len() <= 1 && d.ledger.balance(sender) < SHARE_COST {
        (SHARE_COST - d.ledger.balance(sender)) as u64
    } else {
        0
    }
}

/// The figures of a tick are those of `d`.
pub open spec fn tick_figures(d: DagView, sender: Address, out: MinerTickOutcome) -> bool {
    &&& out.vertices == d.graph.vertices.dom().len()
    &&& out.tips == d.graph.tips.len()
    &&& out.supply == d.ledger.supply
    &&& out.balance == d.ledger.balance(sender)
}

/// What a tick does from `d` on, a state in which genesis was seen to.
pub open spec fn tick_outcome(
    d: DagView,
    wallet: &KronKeypair,
    dest: Address,
    device: AttachingDevice,
    host: &HostObservation,
    out: MinerTickOutcome,
    end: DagView,
) -> bool {
    let sender = wallet.ledger_address();
    let gift = tick_gift(d, sender);
    let paid = d.funded(sender, gift);
    &&& out.faucet_credited == gift
    &&& out.work_units == 1
    &&& out.attached == (out.status == MinerTickStatus::Attached)
    &&& out.status != MinerTickStatus::Attached ==> tick_figures(paid, sender, out)
        && out.tx is None
    &&& (out.status == MinerTickStatus::WaitingForTips) == (paid.graph.tips.len() == 0)
    &&& (out.status == MinerTickStatus::WaitingForBalance) == (paid.graph.tips.len() > 0
        && paid.ledger.balance(sender) < SHARE_COST)
    &&& match out.status {
        MinerTickStatus::WaitingForTips => end == paid && out.error is None,
        MinerTickStatus::WaitingForBalance => end == paid && out.error is None,
        MinerTickStatus::ComposeFailed => end == paid && (out.error matches Some(e) && e@
            == signing_error(wallet.secret_bytes()).spec_message()),
        MinerTickStatus::Attached => {
            &&& out.error is None
            &&& tick_figures(end, sender, out)
            &&& out.tx matches Some(tx) && is_share(paid, wallet, dest, tx@) && paid.attached_as(
                tx@,
                device,
                host,
            ) == (end, None::<DagError>)
        },
        MinerTickStatus::AttachFailed => out.error matches Some(text) && exists|
            t: TxView,
            e: DagError,
        |
            is_share(paid, wallet, dest, t) && #[trigger] refused_share(
                paid,
                t,
                device,
                host,
                e,
                end,
            ) && text@ == e.spec_message(),
    }
}

/// Attaching `t` failed with `e` and left `end`.
pub open spec fn refused_share(
    d: DagView,
    t: TxView,
    device: AttachingDevice,
    host: &HostObservation,
    e: DagError,
    end: DagView,
) -> bool {
    d.attached_as(t, device, host) == (end, Some(e))
}

/// Genesis was seen to: it was there, or it was created.
pub open spec fn genesis_seen_to(before: DagView, created: bool, after: DagView) -> bool {
    if created {
        before.graph.order.len() == 0 && genesis_laid(before, after) && exists|sig: Seq<u8>|
            (after, None::<DagError>) == #[trigger] before.attached(
                genesis_tx(sig),
                true,
                Seq::empty(),
            )
    } else {
        before.graph.order.len() > 0 && after == before
    }
}

/// One miner tick: genesis if the graph is empty, a dust credit on a graph of
/// genesis alone, then compose and attach. Fails only where genesis cannot be
/// signed or attached.
pub fn miner_tick(
    wallet: &KronKeypair,
    dag: &mut KronDAG,
    dest: Address,
    device: AttachingDevice,
    host: &HostObservation,
) -> (r: Result<MinerTickOutcome, DagError>)
    requires
        old(dag).wf(),
    ensures
        final(dag).wf(),
        match r {
            Ok(out) => tick_ended(old(dag)@, wallet, dest, device, host, out, final(dag)@),
            Err(e) => genesis_refused(old(dag)@, e) && final(dag)@ == old(dag)@,
        },
{
    let genesis_created = match dag.ensure_genesis() {
        Ok(b) => b,
        Err(e) => {
            return Err(e);
        },
    };
    let ghost seen = dag@;
    assert(genesis_seen_to(old(dag)@, genesis_created, seen));
    poucw_work(0);
    let sender = wallet.public_key().address();
    let balance: u64 = dag.balance(&sender);
    let mut gift: u64 = 0;
    if dag.vertex_count() <= 1 && balance < SHARE_COST {
        gift = SHARE_COST - balance;
    }
    dag.credit_account(sender, gift);
    let ghost paid = dag@;
    let mut out = MinerTickOutcome {
        genesis_created,
        faucet_credited: gift,
        attached: false,
        work_units: 1,
        vertices: dag.vertex_count(),
        tips: dag.tips().len(),
        supply: dag.supply(),
        balance: dag.balance(&sender),
        tx: None,
        status: MinerTickStatus::WaitingForTips,
        error: None,
    };
    if dag.tips().len() == 0 {
        assert(tick_outcome(seen, wallet, dest, device, host, out, dag@));
        return Ok(out);
    }
    if out.balance < SHARE_COST {
        out.status = MinerTickStatus::WaitingForBalance;
        assert(tick_outcome(seen, wallet, dest, device, host, out, dag@));
        return Ok(out);
    }
    match dag.compose_and_sign(wallet, dest, 1) {
        Ok(tx) => {
            let ghost t = tx@;
            assert(is_share(paid, wallet, dest, t));
            match dag.attach_and_verify_for(tx.clone(), device, host) {
                Ok(()) => {
                    out.attached = true;
                    out.tx = Some(tx);
                    out.vertices = dag.vertex_count();
                    out.tips = dag.tips().len();
                    out.supply = dag.supply();
                    out.balance = dag.balance(&sender);
                    out.status = MinerTickStatus::Attached;
                },
                Err(e) => {
                    out.status = MinerTickStatus::AttachFailed;
                    out.error = Some(e.message());
                    assert(refused_share(paid, t, device, host, e, dag@));
                },
            }
        },
        Err(e) => {
            out.status = MinerTickStatus::ComposeFailed;
            out.error = Some(e.message());
        },
    }
    assert(tick_outcome(seen, wallet, dest, device, host, out, dag@));
    Ok(out)
}

/// What a tick ended in.
pub open spec fn tick_ended(
    before: DagView,
    wallet: &KronKeypair,
    dest: Address,
    device: AttachingDevice,
    host: &HostObservation,
    out: MinerTickOutcome,
    end: DagView,
) -> bool {
    exists|seen: DagView|
        genesis_seen_to(before, out.genesis_created, seen) && #[trigger] tick_outcome(
            seen,
            wallet,
            dest,
            device,
            host,
            out,
            end,
        )
}

/// A tick credits no one once the graph holds more than genesis.
pub proof fn law_faucet_is_for_the_first_share(d: DagView, sender: Address)
    requires
        d.graph.vertices.dom().len() > 1,
    ensures
        tick_gift(d, sender) == 0,
        d.funded(sender, tick_gift(d, sender)) == d,
{
}

/// What became of one share.
#[derive(Debug)]
pub enum ShareOutcome {
    /// The balance does not cover a share.
    Short,
    Attached(DagTransaction),
    ComposeFailed(DagError),
    AttachFailed(DagError),
}

/// A share that was tried on `before` and left `after`.
pub open spec fn share_tried(
    before: DagView,
    wallet: &KronKeypair,
    dest: Address,
    host: &HostObservation,
    out: ShareOutcome,
    after: DagView,
) -> bool {
    let covered = before.ledger.balance(wallet.ledger_address()) >= SHARE_COST;
    match out {
        ShareOutcome::Short => !covered && after == before,
        ShareOutcome::Attached(tx) => {
            &&& covered
            &&& is_share(before, wallet, dest, tx@)
            &&& before.attached_as(tx@, AttachingDevice::Miner, host) == (after, None::<DagError>)
        },
        ShareOutcome::ComposeFailed(e) => covered && e == signing_error(wallet.secret_bytes())
            && after == before,
        ShareOutcome::AttachFailed(e) => covered && exists|t: TxView|
            is_share(before, wallet, dest, t) && #[trigger] refused_share(
                before,
                t,
                AttachingDevice::Miner,
                host,
                e,
                after,
            ),
    }
}

/// One share of an attach-only miner: one unit to `dest` where the balance covers it.
/// It is given no genesis and no dust credit.
pub fn mine_share(wallet: &KronKeypair, dag: &mut KronDAG, dest: Address, host: &HostObservation) -> (r:
    ShareOutcome)
    requires
        old(dag).wf(),
    ensures
        final(dag).wf(),
        share_tried(old(dag)@, wallet, dest, host, r, final(dag)@),
{
    let sender = wallet.public_key().address();
    if dag.balance(&sender) < SHARE_COST {
        return ShareOutcome::Short;
    }
    match dag.compose_and_sign(wallet, dest, 1) {
        Ok(tx) => {
            let kept = tx.clone();
            let ghost before = dag@;
            match dag.attach_and_verify_for(tx, AttachingDevice::Miner, host) {
                Ok(()) => ShareOutcome::Attached(kept),
                Err(e) => {
                    assert(refused_share(
                        before,
                        kept@,
                        AttachingDevice::Miner,
                        host,
                        e,
                        dag@,
                    ));
                    ShareOutcome::AttachFailed(e)
                },
            }
        },
        Err(e) => ShareOutcome::ComposeFailed(e),
    }
}

/// A vertex that a peer delivered to an attach-only miner: `false` where it is stored
/// already, else it is attached as the miner's own are.
pub fn validate_delivered(dag: &mut KronDAG, tx: DagTransaction, host: &HostObservation) -> (r: Result<
    bool,
    DagError,
>)
    requires
        old(dag).wf(),
    ensures
        final(dag).wf(),
        old(dag)@.graph.vertices.contains_key(tx.id) ==> r == Ok::<bool, DagError>(false),
        old(dag)@.graph.vertices.contains_key(tx.id) ==> final(dag)@ == old(dag)@,
        !old(dag)@.graph.vertices.contains_key(tx.id) ==> match r {
            Ok(new) => new && old(dag)@.attached_as(tx@, AttachingDevice::Miner, host) == (
                final(dag)@,
                None::<DagError>,
            ),
            Err(e) => old(dag)@.attached_as(tx@, AttachingDevice::Miner, host) == (
                final(dag)@,
                Some(e),
            ),
        },
{
    if dag.contains(&tx.id) {
        return Ok(false);
    }
    match dag.attach_and_verify_for(tx, AttachingDevice::Miner, host) {
        Ok(()) => Ok(true),
        Err(e) => Err(e),
    }
}

/// An attached share moves one unit to its destination and nothing away from anyone but its
/// sender, who pays the unit and the fee and earns the fee and what is minted.
pub proof fn law_share_moves_one_unit(
    d: DagView,
    wallet: &KronKeypair,
    dest: Address,
    t: TxView,
    device: AttachingDevice,
    host: &HostObservation,
    a: Address,
)
    requires
        is_share(d, wallet, dest, t),
        d.attached_as(t, device, host).1 is None,
        t.parent_1 != NULL_PARENT || t.parent_2 != NULL_PARENT,
    ensures
        t.sender == wallet.ledger_address(),
        t.recipient == dest,
        t.amount == 1,
        t.fee == 1_000,
        t.nonce == amount_at(d.ledger.nonces, wallet.ledger_address()),
        ({
            let e = d.attached_as(t, device, host).0;
            let minted = e.ledger.supply - d.ledger.supply;
            &&& 0 <= minted <= 100_000
            &&& e.graph.order == d.graph.order.push(t.id)
            &&& e.ledger.count == d.ledger.count + 1
            &&& a == dest && a != t.sender ==> amount_at(e.ledger.balances, a) == amount_at(
                d.ledger.balances,
                a,
            ) + 1
            &&& a == t.sender && a != dest ==> amount_at(e.ledger.balances, a) == amount_at(
                d.ledger.balances,
                a,
            ) - 1 + minted
            &&& a != t.sender && a != dest ==> amount_at(e.ledger.balances, a) == amount_at(
                d.ledger.balances,
                a,
            )
        }),
{
    law_attach_pays_each_account(d, t, t.relay_nodes, a);
}

/// A tick credits what is missing to one share, on a graph of at most one vertex, and nothing
/// to who can pay and nothing on a larger graph.
pub proof fn law_dust_covers_one_share(d: DagView, sender: Address)
    ensures
        ({
            let have = amount_at(d.ledger.balances, sender);
            let gift = tick_gift(d, sender);
            let small = d.graph.vertices.dom().len() <= 1;
            &&& small && have < 1_001 ==> have + gift == 1_001
            &&& !small || have >= 1_001 ==> gift == 0
        }),
{
}

/// A burst of shares adds one vertex for each of them, and each moves one unit to the
/// destination.
pub proof fn law_burst_moves_a_unit_a_share(
    d: DagView,
    shares: Seq<TxView>,
    wallet: &KronKeypair,
    dest: Address,
    device: AttachingDevice,
    host: &HostObservation,
)
    requires
        shares_hold(d, shares, wallet, dest, device, host),
        forall|i: int|
            0 <= i < shares.len() ==> (#[trigger] shares[i]).parent_1 != NULL_PARENT
                || shares[i].parent_2 != NULL_PARENT,
        dest != wallet.ledger_address(),
    ensures
        ({
            let e = with_shares(d, shares, device, host);
            &&& e.ledger.count == d.ledger.count + shares.len()
            &&& e.graph.order.len() == d.graph.order.len() + shares.len()
            &&& amount_at(e.ledger.balances, dest) == amount_at(d.ledger.balances, dest)
                + shares.len()
            &&& forall|i: int|
                0 <= i < shares.len() ==> e.graph.order[d.graph.order.len() + i] == (
                #[trigger] shares[i]).id
        }),
    decreases shares.len(),
{
    if shares.len() > 0 {
        let h = shares.drop_last();
        assert forall|i: int| 0 <= i < h.len() implies (#[trigger] h[i]).parent_1 != NULL_PARENT
            || h[i].parent_2 != NULL_PARENT by {
            assert(shares[i] == h[i]);
        }
        law_burst_moves_a_unit_a_share(d, h, wallet, dest, device, host);
        let before = with_shares(d, h, device, host);
        assert(shares[shares.len() - 1] == shares.last());
        law_share_moves_one_unit(before, wallet, dest, shares.last(), device, host, dest);
        let e = with_shares(d, shares, device, host);
        assert forall|i: int| 0 <= i < shares.len() implies e.graph.order[d.graph.order.len() + i]
            == (#[trigger] shares[i]).id by {
            if i < h.len() {
                assert(h[i] == shares[i]);
            }
        }
    }
}

/// What a tick on a graph with genesis tells: whether a share went in, what the miner was
/// credited, and the figures of the graph as it now is. Without a share the graph is as before.
pub proof fn law_tick_tells_what_it_did(
    before: DagView,
    wallet: &KronKeypair,
    dest: Address,
    device: AttachingDevice,
    host: &HostObservation,
    out: MinerTickOutcome,
    end: DagView,
)
    requires
        tick_ended(before, wallet, dest, device, host, out, end),
        before.graph.order.len() > 0,
    ensures
        ({
            let sender = wallet.ledger_address();
            let have = amount_at(before.ledger.balances, sender);
            let small = before.graph.vertices.dom().len() <= 1;
            &&& !out.genesis_created
            &&& out.work_units == 1
            &&& out.faucet_credited == (if small && have < 1_001 {
                1_001 - have
            } else {
                0
            })
            &&& out.status == MinerTickStatus::WaitingForTips ==> before.graph.tips.len() == 0
            &&& out.status == MinerTickStatus::WaitingForBalance ==> have + out.faucet_credited < 1_001
            &&& have + out.faucet_credited < 1_001 ==> !out.attached
            &&& out.attached <==> out.tx is Some
            &&& out.tx matches Some(tx) ==> {
                &&& tx@.recipient == dest
                &&& tx@.sender == sender
                &&& tx@.amount == 1
                &&& tx@.fee == 1_000
            }
            &&& out.attached ==> out.supply == end.ledger.supply && out.balance == amount_at(
                end.ledger.balances,
                sender,
            ) && out.vertices == end.graph.vertices.dom().len() && out.tips
                == end.graph.tips.len()
            &&& out.status == MinerTickStatus::WaitingForTips || out.status
                == MinerTickStatus::WaitingForBalance || out.status
                == MinerTickStatus::ComposeFailed ==> end.graph == before.graph
        }),
{
}

/// A share is tried where its sender can pay it, and only there. Of one that is not attached the
/// graph keeps nothing.
pub proof fn law_when_a_share_is_tried(
    before: DagView,
    wallet: &KronKeypair,
    dest: Address,
    host: &HostObservation,
    out: ShareOutcome,
    after: DagView,
)
    requires
        share_tried(before, wallet, dest, host, out, after),
    ensures
        out is Short <==> amount_at(before.ledger.balances, wallet.ledger_address()) < 1_001,
        out is Short || out is ComposeFailed ==> after == before,
        out matches ShareOutcome::Attached(tx) ==> {
            &&& tx@.recipient == dest
            &&& tx@.sender == wallet.ledger_address()
            &&& tx@.amount == 1
            &&& tx@.fee == 1_000
        },
{
}

} // verus!
