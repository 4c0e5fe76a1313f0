//! Identity reputation and datacenter Sybil filtering.

use vstd::prelude::*;

use crate::anti_bot::attestation::{in_datacenter, is_datacenter_ipv4, miner_node_id, DeviceScore};
use crate::anti_bot::cadence::node_id_of;
use crate::anti_bot::profile::DeviceClass;
use crate::bytes::{be_value, less};
use crate::table::Table;
use crate::types::{Address, NodeId};

verus! {

/// Most identities that one /24 may keep.
pub const SUBNET_CAP: usize = 2;

/// Score of an identity that was never rated.
pub const START_SCORE: i32 = 100;

#[derive(Clone, Copy, Debug)]
pub struct NodeReputation {
    pub miner: Address,
    pub node_id: NodeId,
    pub class: DeviceClass,
    pub score: i32,
    pub subnet: u32,
    pub last_authenticity: u16,
}

/// The /24 of an endpoint, as a big-endian number with a zero last octet.
pub open spec fn subnet_of(ip: [u8; 4]) -> u32 {
    (ip@[0] * 0x100_0000 + ip@[1] * 0x1_0000 + ip@[2] * 0x100) as u32
}

pub fn ipv4_to_slash24(ip: [u8; 4]) -> (r: u32)
    ensures
        r == subnet_of(ip),
{
    (ip[0] as u32) * 0x100_0000 + (ip[1] as u32) * 0x1_0000 + (ip[2] as u32) * 0x100
}

impl NodeReputation {
    /// An identity that was never rated.
    pub open spec fn fresh(miner: Address, class: DeviceClass, ipv4: [u8; 4]) -> NodeReputation {
        NodeReputation {
            miner,
            node_id: node_id_of(miner),
            class,
            score: START_SCORE,
            subnet: subnet_of(ipv4),
            last_authenticity: 0,
        }
    }

    fn new(miner: Address, class: DeviceClass, ipv4: [u8; 4]) -> (r: Self)
        ensures
            r == Self::fresh(miner, class, ipv4),
    {
        NodeReputation {
            miner,
            node_id: miner_node_id(&miner),
            class,
            score: START_SCORE,
            subnet: ipv4_to_slash24(ipv4),
            last_authenticity: 0,
        }
    }
}

pub struct ReputationLedger {
    nodes: Table<32, NodeReputation>,
}

impl View for ReputationLedger {
    type V = Map<Address, NodeReputation>;

    closed spec fn view(&self) -> Map<Address, NodeReputation> {
        self.nodes@
    }
}

/// The score of an identity in a table.
pub open spec fn score_in(m: Map<Address, NodeReputation>, a: Address) -> i32 {
    if m.contains_key(a) {
        m[a].score
    } else {
        START_SCORE
    }
}

/// Scores lie between minus fifty, where repeated soft penalties settle, and
/// one thousand.
pub open spec fn scores_ranged(m: Map<Address, NodeReputation>) -> bool {
    forall|a: Address| #[trigger] m.contains_key(a) ==> -50 <= m[a].score <= 1_000
}

/// A reputation after an offence: half of it less 25, or nothing.
pub open spec fn penalised(base: NodeReputation, hard: bool) -> NodeReputation {
    NodeReputation {
        score: if hard {
            0
        } else {
            (half(base.score as int) - 25) as i32
        },
        ..base
    }
}

/// Half of `x`, rounded toward zero.
pub open spec fn half(x: int) -> int {
    if x >= 0 {
        x / 2
    } else {
        -((-x) / 2)
    }
}

/// `x` moved into `0..=1000`.
pub open spec fn clamped(x: int) -> i32 {
    if x < 0 {
        0
    } else if x > 1_000 {
        1_000
    } else {
        x as i32
    }
}

/// What a quote's score adds to a reputation.
pub open spec fn score_delta(authenticity: u16, residential: u16) -> int {
    authenticity as int / 50 + residential as int / 80 - 10
}

/// A candidate with a datacenter endpoint.
pub open spec fn is_farm(c: (Address, [u8; 4])) -> bool {
    in_datacenter(c.1@[0])
}

/// Candidate `j` stands before candidate `i`: a higher score, then a smaller
/// address, then an earlier place in the list.
pub open spec fn stands_before(
    m: Map<Address, NodeReputation>,
    c: Seq<(Address, [u8; 4])>,
    j: int,
    i: int,
) -> bool {
    let sj = score_in(m, c[j].0);
    let si = score_in(m, c[i].0);
    let kj = be_value(c[j].0@);
    let ki = be_value(c[i].0@);
    sj > si || (sj == si && (kj < ki || (kj == ki && j < i)))
}

/// Candidate `j` competes with candidate `i` for a place in its /24.
pub open spec fn outdoes(
    m: Map<Address, NodeReputation>,
    c: Seq<(Address, [u8; 4])>,
    j: int,
    i: int,
) -> bool {
    &&& !is_farm(c[j])
    &&& subnet_of(c[j].1) == subnet_of(c[i].1)
    &&& stands_before(m, c, j, i)
}

/// How many of the first `n` candidates stand before `i` in its /24.
pub open spec fn ahead(
    m: Map<Address, NodeReputation>,
    c: Seq<(Address, [u8; 4])>,
    i: int,
    n: nat,
) -> nat
    decreases n,
{
    if n == 0 {
        0
    } else {
        ahead(m, c, i, (n - 1) as nat) + (if outdoes(m, c, n - 1, i) {
            1nat
        } else {
            0nat
        })
    }
}

/// Candidate `i` is kept: no farm, and among the best of its /24.
pub open spec fn is_kept(m: Map<Address, NodeReputation>, c: Seq<(Address, [u8; 4])>, i: int) -> bool {
    !is_farm(c[i]) && ahead(m, c, i, c.len()) < SUBNET_CAP
}

/// The kept addresses among the first `n` candidates, in list order.
pub open spec fn kept_list(
    m: Map<Address, NodeReputation>,
    c: Seq<(Address, [u8; 4])>,
    n: nat,
) -> Seq<Address>
    decreases n,
{
    if n == 0 {
        Seq::empty()
    } else if is_kept(m, c, n - 1) {
        kept_list(m, c, (n - 1) as nat).push(c[n - 1].0)
    } else {
        kept_list(m, c, (n - 1) as nat)
    }
}

/// Addresses in ascending order, equal ones allowed.
pub open spec fn in_address_order(s: Seq<Address>) -> bool {
    forall|i: int, j: int|
        #![trigger s[i], s[j]]
        0 <= i < j < s.len() ==> be_value(s[i]@) <= be_value(s[j]@)
}

impl ReputationLedger {
    pub closed spec fn wf(&self) -> bool {
        self.nodes.wf() && scores_ranged(self.nodes@)
    }

    pub fn new() -> (r: Self)
        ensures
            r.wf(),
            r@ == Map::<Address, NodeReputation>::empty(),
    {
        ReputationLedger { nodes: Table::new() }
    }

    pub fn get(&self, miner: &Address) -> (r: Option<&NodeReputation>)
        requires
            self.wf(),
        ensures
            match r {
                Some(n) => self@.contains_key(*miner) && *n == self@[*miner],
                None => !self@.contains_key(*miner),
            },
    {
        self.nodes.get(miner)
    }

    pub fn score_of(&self, miner: &Address) -> (r: i32)
        requires
            self.wf(),
        ensures
            r == score_in(self@, *miner),
    {
        match self.nodes.get(miner) {
            Some(n) => n.score,
            None => START_SCORE,
        }
    }

    /// Folds a quote's score into the reputation, within `0..=1000`.
    pub fn apply_score(
        &mut self,
        miner: Address,
        class: DeviceClass,
        ipv4: [u8; 4],
        score: &DeviceScore,
    )
        requires
            old(self).wf(),
        ensures
            final(self).wf(),
            final(self)@ == old(self)@.insert(
                miner,
                ({
                    let base = if old(self)@.contains_key(miner) {
                        old(self)@[miner]
                    } else {
                        NodeReputation::fresh(miner, class, ipv4)
                    };
                    NodeReputation {
                        class,
                        subnet: subnet_of(ipv4),
                        last_authenticity: score@.authenticity,
                        score: clamped(
                            base.score + score_delta(score@.authenticity, score@.residential),
                        ),
                        ..base
                    }
                }),
            ),
    {
        let mut entry = match self.nodes.get(&miner) {
            Some(n) => *n,
            None => NodeReputation::new(miner, class, ipv4),
        };
        entry.class = class;
        entry.subnet = ipv4_to_slash24(ipv4);
        entry.last_authenticity = score.authenticity;
        let up: i32 = (score.authenticity / 50) as i32 + (score.residential / 80) as i32;
        let sum: i32 = entry.score + (up - 10);
        entry.score = if sum < 0 { 0 } else if sum > 1_000 { 1_000 } else { sum };
        self.nodes.insert(miner, entry);
    }

    /// Halves a reputation and takes 25 off, or zeroes it.
    pub fn penalize(&mut self, miner: Address, class: DeviceClass, ipv4: [u8; 4], hard: bool)
        requires
            old(self).wf(),
        ensures
            final(self).wf(),
            final(self)@ == old(self)@.insert(
                miner,
                penalised(
                    if old(self)@.contains_key(miner) {
                        old(self)@[miner]
                    } else {
                        NodeReputation::fresh(miner, class, ipv4)
                    },
                    hard,
                ),
            ),
    {
        let mut entry = match self.nodes.get(&miner) {
            Some(n) => *n,
            None => NodeReputation::new(miner, class, ipv4),
        };
        let s: i32 = entry.score;
        let h: i32 = if s >= 0 { s / 2 } else { -((-s) / 2) };
        entry.score = if hard { 0 } else { h - 25 };
        self.nodes.insert(miner, entry);
    }

    fn precedes(&self, c: &[(Address, [u8; 4])], j: usize, i: usize) -> (r: bool)
        requires
            self.wf(),
            j < c@.len(),
            i < c@.len(),
        ensures
            r == stands_before(self@, c@, j as int, i as int),
    {
        let sj: i32 = self.score_of(&c[j].0);
        let si: i32 = self.score_of(&c[i].0);
        if sj != si {
            return sj > si;
        }
        if less(&c[j].0, &c[i].0) {
            return true;
        }
        if less(&c[i].0, &c[j].0) {
            return false;
        }
        j < i
    }

    fn keeps(&self, c: &[(Address, [u8; 4])], i: usize) -> (r: bool)
        requires
            self.wf(),
            i < c@.len(),
        ensures
            r == is_kept(self@, c@, i as int),
    {
        if is_datacenter_ipv4(c[i].1) {
            return false;
        }
        let mut count: usize = 0;
        let mut j: usize = 0;
        while j < c.len()
            invariant
                self.wf(),
                i < c@.len(),
                j <= c@.len(),
                count == ahead(self@, c@, i as int, j as nat),
                count <= j,
            decreases c@.len() - j,
        {
            if !is_datacenter_ipv4(c[j].1) && ipv4_to_slash24(c[j].1) == ipv4_to_slash24(c[i].1)
                && self.precedes(c, j, i) {
                count += 1;
            }
            j += 1;
        }
        count < SUBNET_CAP
    }

    /// Drops datacenter farms and caps each /24, keeping the best rated. The
    /// result is in ascending order.
    pub fn filter_sybil_subnet(&self, candidates: &[(Address, [u8; 4])]) -> (r: Vec<Address>)
        requires
            self.wf(),
        ensures
            in_address_order(r@),
            r@.to_multiset() == kept_list(self@, candidates@, candidates@.len()).to_multiset(),
    {
        let mut kept: Vec<Address> = Vec::new();
        let mut i: usize = 0;
        while i < candidates.len()
            invariant
                self.wf(),
                i <= candidates@.len(),
                kept@ == kept_list(self@, candidates@, i as nat),
            decreases candidates@.len() - i,
        {
            if self.keeps(candidates, i) {
                kept.push(candidates[i].0);
            }
            i += 1;
        }
        sort_addresses(kept)
    }
}

/// Sorts addresses in ascending order.
fn sort_addresses(list: Vec<Address>) -> (r: Vec<Address>)
    ensures
        in_address_order(r@),
        r@.to_multiset() == list@.to_multiset(),
{
    let mut out: Vec<Address> = Vec::new();
    let mut i: usize = 0;
    proof {
        assert(list@.take(0) =~= Seq::<Address>::empty());
        assert(out@ =~= Seq::<Address>::empty());
    }
    while i < list.len()
        invariant
            i <= list@.len(),
            in_address_order(out@),
            out@.to_multiset() == list@.take(i as int).to_multiset(),
        decreases list@.len() - i,
    {
        let a = list[i];
        let mut at: usize = out.len();
        while at > 0 && less(&a, &out[at - 1])
            invariant
                at <= out@.len(),
                in_address_order(out@),
                forall|k: int| at <= k < out@.len() ==> be_value(a@) < be_value(#[trigger] out@[k]@),
            decreases at,
        {
            at -= 1;
        }
        let ghost before = out@;
        out.insert(at, a);
        proof {
            assert forall|x: int, y: int| 0 <= x < y < out@.len() implies be_value(out@[x]@)
                <= be_value(out@[y]@) by {
                if y == at {
                    assert(out@[x] == before[x]);
                    assert(before[x] == before[x] && before[at - 1] == before[at - 1]);
                } else if x == at {
                    assert(out@[y] == before[y - 1]);
                } else {
                    let p = if x < at { x } else { x - 1 };
                    let q = if y < at { y } else { y - 1 };
                    assert(out@[x] == before[p]);
                    assert(out@[y] == before[q]);
                }
            }
            vstd::seq_lib::to_multiset_insert(before, at as int, a);
            assert(list@.take(i + 1) =~= list@.take(i as int).push(a));
            vstd::seq_lib::to_multiset_build(list@.take(i as int), a);
        }
        i += 1;
    }
    assert(list@.take(i as int) =~= list@);
    out
}

proof fn lemma_ahead_counts(
    m: Map<Address, NodeReputation>,
    c: Seq<(Address, [u8; 4])>,
    i: int,
    a: int,
    b: int,
    n: nat,
)
    requires
        n <= c.len(),
        0 <= a < b < n,
        outdoes(m, c, a, i),
        outdoes(m, c, b, i),
    ensures
        ahead(m, c, i, n) >= 2,
    decreases n,
{
    if b < n - 1 {
        lemma_ahead_counts(m, c, i, a, b, (n - 1) as nat);
    } else {
        lemma_ahead_one(m, c, i, a, (n - 1) as nat);
    }
}

proof fn lemma_ahead_one(
    m: Map<Address, NodeReputation>,
    c: Seq<(Address, [u8; 4])>,
    i: int,
    a: int,
    n: nat,
)
    requires
        n <= c.len(),
        0 <= a < n,
        outdoes(m, c, a, i),
    ensures
        ahead(m, c, i, n) >= 1,
    decreases n,
{
    if a < n - 1 {
        lemma_ahead_one(m, c, i, a, (n - 1) as nat);
    }
}

/// No three candidates of one /24 are kept together, and no farm is kept.
pub proof fn law_subnet_cap(
    m: Map<Address, NodeReputation>,
    c: Seq<(Address, [u8; 4])>,
    x: int,
    y: int,
    z: int,
)
    requires
        0 <= x < y < z < c.len(),
        subnet_of(c[x].1) == subnet_of(c[y].1),
        subnet_of(c[y].1) == subnet_of(c[z].1),
    ensures
        !(is_kept(m, c, x) && is_kept(m, c, y) && is_kept(m, c, z)),
        is_kept(m, c, x) ==> !is_farm(c[x]),
{
    if is_kept(m, c, x) && is_kept(m, c, y) && is_kept(m, c, z) {
        let n = c.len();
        if stands_before(m, c, x, z) && stands_before(m, c, y, z) {
            lemma_ahead_counts(m, c, z, x, y, n);
        } else if stands_before(m, c, x, y) && stands_before(m, c, z, y) {
            lemma_ahead_counts(m, c, y, x, z, n);
        } else {
            assert(stands_before(m, c, y, x) && stands_before(m, c, z, x));
            lemma_ahead_counts(m, c, x, y, z, n);
        }
    }
}

/// In every ledger, whatever was rated or penalized, scores keep their range.
pub proof fn law_scores_stay_in_range(ledger: &ReputationLedger, a: Address)
    requires
        ledger.wf(),
    ensures
        -50 <= score_in(ledger@, a) <= 1_000,
{
}

} // verus!
