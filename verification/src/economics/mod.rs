//! DAG monetary policy. All values are integer minor units (6 decimals).

use vstd::arithmetic::power2::{lemma_pow2_pos, lemma_pow2_strictly_increases, pow2};
use vstd::prelude::*;

use crate::table::Table;
use crate::types::Address;

verus! {

/// Minor units per whole coin (fixed-point scale).
pub const UNITS_PER_COIN: u64 = 1_000_000;

/// Satoshi-KRON / micro-KRON: alias of [`UNITS_PER_COIN`].
pub const SATOSHI_KRON: u64 = UNITS_PER_COIN;

/// Maximum lifetime supply: 24 million coins. The premine is zero.
pub const HARD_CAP_COINS: u64 = 24_000_000;

pub const HARD_CAP: u64 = 24_000_000_000_000;

pub const PREMINE: u64 = 0;

/// 0.001 coin per applied user vertex, charged in minor units.
pub const FIXED_TRANSACTION_FEE: u64 = 1_000;

/// Alias used by the transfer path.
pub const FIXED_FEE: u64 = FIXED_TRANSACTION_FEE;

/// 0.1 KRON minted per confirmed DAG vertex before the first halving.
pub const INITIAL_TX_SUBSIDY: u64 = 100_000;

/// Confirmed vertices per subsidy era (about four years of high activity).
pub const TX_HALVING_INTERVAL: u64 = 126_144_000;

/// Miner-phone share of `(subsidy + fee)`.
pub const DAG_MINER_SHARE_PERCENT: u64 = 80;

/// Share taken by the phone marked `Mesh_Relay_Node`.
pub const RELAY_SHARE_PERCENT: u64 = 20;

#[derive(Clone, Copy, Debug, PartialEq, Eq, Structural)]
pub enum EconomicError {
    /// A checked addition or multiplication overflowed.
    Overflow,
}

impl EconomicError {
    /// The error as a line of text.
    pub fn message(&self) -> (r: &'static str)
        ensures
            r@ == "economic integer overflow"@,
    {
        match self {
            EconomicError::Overflow => "economic integer overflow",
        }
    }
}

/// `a * b`, stopped at the largest `u64`.
pub open spec fn capped_mul(a: u64, b: u64) -> u64 {
    if a * b > u64::MAX {
        u64::MAX
    } else {
        (a * b) as u64
    }
}

/// Multiplication that stops at the largest `u64`.
pub fn saturating_product(a: u64, b: u64) -> (r: u64)
    ensures
        r == capped_mul(a, b),
{
    match a.checked_mul(b) {
        Some(p) => p,
        None => u64::MAX,
    }
}

/// Whole coins in minor units.
pub fn coins(whole: u64) -> (r: u64)
    ensures
        r == capped_mul(whole, UNITS_PER_COIN),
{
    saturating_product(whole, UNITS_PER_COIN)
}

/// `percent` hundredths of `total`, rounded down; the product saturates.
pub open spec fn share(total: u64, percent: u64) -> u64 {
    capped_mul(total, percent) / 100
}

/// 20% of `total`, rounded down.
pub fn relay_share_of(total: u64) -> (r: u64)
    ensures
        r == share(total, RELAY_SHARE_PERCENT),
        r <= total,
{
    saturating_product(total, RELAY_SHARE_PERCENT) / 100
}

/// What is left of `total` after the relay's cut.
pub fn remainder_after_relay(total: u64) -> (r: u64)
    ensures
        r == total - share(total, RELAY_SHARE_PERCENT),
{
    total - relay_share_of(total)
}

/// The relay's cut of `total`, and the remainder.
pub fn mesh_relay_split(total: u64) -> (r: (u64, u64))
    ensures
        r.0 == share(total, RELAY_SHARE_PERCENT),
        r.0 + r.1 == total,
{
    let relay: u64 = relay_share_of(total);
    (relay, total - relay)
}

/// Miner-phone cut of a `(subsidy + fee)` pool.
pub fn dag_miner_share_of(total_tx_pool: u64) -> (r: u64)
    ensures
        r == share(total_tx_pool, DAG_MINER_SHARE_PERCENT),
        r <= total_tx_pool,
{
    saturating_product(total_tx_pool, DAG_MINER_SHARE_PERCENT) / 100
}

/// Relay-phone remainder of a `(subsidy + fee)` pool.
pub fn dag_relay_total_of(total_tx_pool: u64) -> (r: u64)
    ensures
        r == total_tx_pool - share(total_tx_pool, DAG_MINER_SHARE_PERCENT),
{
    total_tx_pool - dag_miner_share_of(total_tx_pool)
}

/// The subsidy of the next confirmed vertex after `count` confirmed ones, with
/// `supply` units in circulation.
///
/// The base subsidy halves every [`TX_HALVING_INTERVAL`] vertices, is zero from
/// the 64th halving on, and never lifts the supply over [`HARD_CAP`].
pub open spec fn tx_subsidy(count: u64, supply: u64) -> u64 {
    let halvings = count / TX_HALVING_INTERVAL;
    if halvings >= 64 || supply >= HARD_CAP {
        0
    } else {
        let base = (INITIAL_TX_SUBSIDY as nat / pow2(halvings as nat)) as u64;
        let room = (HARD_CAP - supply) as u64;
        if base > room {
            room
        } else {
            base
        }
    }
}

/// DAG subsidy at `global_tx_count` with `current_supply` in circulation.
pub fn get_current_tx_subsidy(global_tx_count: u64, current_supply: u64) -> (r: u64)
    ensures
        r == tx_subsidy(global_tx_count, current_supply),
        r <= INITIAL_TX_SUBSIDY,
        current_supply <= HARD_CAP ==> current_supply + r <= HARD_CAP,
{
    let halvings: u64 = global_tx_count / TX_HALVING_INTERVAL;
    if halvings >= 64 || current_supply >= HARD_CAP {
        return 0;
    }
    let subsidy: u64 = INITIAL_TX_SUBSIDY >> halvings;
    proof {
        vstd::bits::lemma_u64_shr_is_div(INITIAL_TX_SUBSIDY, halvings);
        lemma_halved_base(halvings as nat);
    }
    let room: u64 = HARD_CAP - current_supply;
    if subsidy > room {
        room
    } else {
        subsidy
    }
}

proof fn lemma_halved_base(h: nat)
    ensures
        0 <= INITIAL_TX_SUBSIDY as nat / pow2(h) <= INITIAL_TX_SUBSIDY,
{
    lemma_pow2_pos(h);
    let p = pow2(h);
    assert(0 <= INITIAL_TX_SUBSIDY as nat / p <= INITIAL_TX_SUBSIDY as nat) by (nonlinear_arith)
        requires
            p >= 1,
    ;
}

/// Confirmed user vertices left in the current subsidy era.
pub fn txs_remaining_until_halving(dag_tx_count: u64) -> (r: u64)
    ensures
        r == TX_HALVING_INTERVAL - dag_tx_count % TX_HALVING_INTERVAL,
        1 <= r <= TX_HALVING_INTERVAL,
        (dag_tx_count + r) % (TX_HALVING_INTERVAL as int) == 0,
{
    TX_HALVING_INTERVAL - (dag_tx_count % TX_HALVING_INTERVAL)
}

/// The sum of what `accounts` holds under each of `keys`.
pub open spec fn sum_over(accounts: Map<Address, u64>, keys: Seq<Address>) -> nat
    decreases keys.len(),
{
    if keys.len() == 0 {
        0
    } else {
        sum_over(accounts, keys.drop_last()) + accounts[keys.last()] as nat
    }
}

proof fn lemma_sum_monotone(accounts: Map<Address, u64>, keys: Seq<Address>, i: int)
    requires
        0 <= i <= keys.len(),
    ensures
        sum_over(accounts, keys.take(i)) <= sum_over(accounts, keys),
    decreases keys.len() - i,
{
    if i < keys.len() {
        lemma_sum_monotone(accounts, keys, i + 1);
        assert(keys.take(i + 1).drop_last() =~= keys.take(i));
    } else {
        assert(keys.take(i) =~= keys);
    }
}

/// The sum of all balances.
pub fn total_supply(accounts: &Table<32, u64>) -> (r: u64)
    requires
        accounts.wf(),
        sum_over(accounts@, accounts.listing()) <= u64::MAX,
    ensures
        r == sum_over(accounts@, accounts.listing()),
{
    let mut sum: u64 = 0;
    let mut i: usize = 0;
    let ghost keys = accounts.listing();
    while i < accounts.len()
        invariant
            accounts.wf(),
            keys == accounts.listing(),
            i <= keys.len(),
            sum == sum_over(accounts@, keys.take(i as int)),
            sum_over(accounts@, keys) <= u64::MAX,
        decreases keys.len() - i,
    {
        proof {
            lemma_sum_monotone(accounts@, keys, i + 1);
            assert(keys.take(i + 1).drop_last() =~= keys.take(i as int));
        }
        sum = sum + *accounts.value_at(i);
        i += 1;
    }
    assert(keys.take(i as int) =~= keys);
    sum
}

/// Miner and relay shares add up to the pool, for every pool.
pub proof fn law_shares_conserve_pool(pool: u64)
    ensures
        share(pool, DAG_MINER_SHARE_PERCENT) + (pool - share(pool, DAG_MINER_SHARE_PERCENT)) == pool,
        share(pool, DAG_MINER_SHARE_PERCENT) <= pool,
        share(pool, RELAY_SHARE_PERCENT) <= pool,
{
}

/// While the product does not saturate, the miner's share is within one unit of
/// exactly 80%.
pub proof fn law_miner_share_is_eighty_percent(pool: u64)
    requires
        pool * DAG_MINER_SHARE_PERCENT <= u64::MAX,
    ensures
        0 <= 80 * pool - 100 * share(pool, DAG_MINER_SHARE_PERCENT) < 100,
{
}

/// Minting never lifts the supply over the cap.
pub proof fn law_subsidy_respects_cap(count: u64, supply: u64)
    requires
        supply <= HARD_CAP,
    ensures
        supply + tx_subsidy(count, supply) <= HARD_CAP,
        tx_subsidy(count, supply) <= INITIAL_TX_SUBSIDY,
{
    lemma_halved_base((count / TX_HALVING_INTERVAL) as nat);
}

/// The subsidy never rises as vertices confirm and supply grows.
pub proof fn law_subsidy_never_rises(count: u64, supply: u64, later_count: u64, later_supply: u64)
    requires
        count <= later_count,
        supply <= later_supply,
    ensures
        tx_subsidy(later_count, later_supply) <= tx_subsidy(count, supply),
{
    let a = count / TX_HALVING_INTERVAL;
    let b = later_count / TX_HALVING_INTERVAL;
    assert(a <= b);
    lemma_pow2_pos(a as nat);
    lemma_pow2_pos(b as nat);
    if a < b {
        lemma_pow2_strictly_increases(a as nat, b as nat);
    }
    let p = pow2(a as nat);
    let q = pow2(b as nat);
    let s = INITIAL_TX_SUBSIDY as nat;
    assert(s / q <= s / p) by (nonlinear_arith)
        requires
            1 <= p <= q,
    ;
    lemma_halved_base(a as nat);
    lemma_halved_base(b as nat);
}

/// One era later the base subsidy is halved.
pub proof fn law_subsidy_halves(count: u64)
    requires
        count as int + TX_HALVING_INTERVAL < 64 * TX_HALVING_INTERVAL,
    ensures
        tx_subsidy((count + TX_HALVING_INTERVAL) as u64, 0) == tx_subsidy(count, 0) / 2,
{
    let h = (count / TX_HALVING_INTERVAL) as nat;
    assert((count + TX_HALVING_INTERVAL) as u64 / TX_HALVING_INTERVAL == h + 1);
    vstd::arithmetic::power2::lemma_pow2_unfold(h + 1);
    lemma_pow2_pos(h);
    let p = pow2(h);
    let s = INITIAL_TX_SUBSIDY as int;
    vstd::arithmetic::div_mod::lemma_div_denominator(s, p as int, 2);
    assert(p * 2 == 2 * p);
    lemma_halved_base(h);
    lemma_halved_base(h + 1);
}

/// In the first era every confirmed vertex mints a tenth of a coin, as long as the cap of 24
/// million coins leaves room for it.
pub proof fn law_first_era_mints_a_tenth(count: u64, supply: u64)
    requires
        count < 126_144_000,
        supply + 100_000 <= 24_000_000_000_000,
    ensures
        tx_subsidy(count, supply) == 100_000,
{
    vstd::arithmetic::power2::lemma2_to64();
    assert(count / TX_HALVING_INTERVAL == 0);
}

/// The supply decides over the subsidy only at the cap: short of it the subsidy is that of the
/// era, at the cap it is what is left, and behind the cap nothing.
pub proof fn law_subsidy_fills_the_cap(count: u64, supply: u64)
    ensures
        supply + tx_subsidy(count, 0) <= 24_000_000_000_000 ==> tx_subsidy(count, supply)
            == tx_subsidy(count, 0),
        supply <= 24_000_000_000_000 < supply + tx_subsidy(count, 0) ==> supply + tx_subsidy(
            count,
            supply,
        ) == 24_000_000_000_000,
        supply >= 24_000_000_000_000 ==> tx_subsidy(count, supply) == 0,
{
    lemma_halved_base((count / TX_HALVING_INTERVAL) as nat);
}

/// Within an era the subsidy is the same, and from the eighteenth era on it is nothing.
pub proof fn law_subsidy_of_an_era(count: u64, other: u64)
    ensures
        count / 126_144_000 == other / 126_144_000 ==> tx_subsidy(count, 0) == tx_subsidy(other, 0),
        count >= 17 * 126_144_000 ==> tx_subsidy(count, 0) == 0,
{
    if count >= 17 * 126_144_000 {
        let h = (count / TX_HALVING_INTERVAL) as nat;
        assert(h >= 17);
        vstd::arithmetic::power2::lemma2_to64();
        if h > 17 {
            lemma_pow2_strictly_increases(17, h);
        }
        let p = pow2(h);
        assert(p >= 131072);
        assert(INITIAL_TX_SUBSIDY as nat / p == 0) by (nonlinear_arith)
            requires
                p >= 131072,
        ;
    }
}

/// The relay's cut is a fifth, rounded down, and what is left is the rest.
pub proof fn law_relay_cut_is_a_fifth(total: u64)
    requires
        total * 20 <= u64::MAX,
    ensures
        0 <= total - 5 * share(total, RELAY_SHARE_PERCENT) < 5,
{
}

} // verus!
