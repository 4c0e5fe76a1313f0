//! When a device passes, what it scores, and what a record of it comes to.

use vstd::prelude::*;

use crate::anti_bot::attestation::{honest_quote, jittered, law_variance_is_exact, sum_of_squares,
    sum_u16, sum_u64, AttestationView, ScoreFlag};
use crate::anti_bot::cadence::{sample_total, PacedView, RecordView};
use crate::anti_bot::profile::{profile_of, DeviceClass};
use crate::anti_bot::reputation::{ahead, clamped, half, is_kept, outdoes, penalised, score_delta,
    subnet_of, NodeReputation};
use crate::types::Address;

verus! {

/// When a quote passes: exactly where it is sealed, has four samples of both probes and two of
/// skew and round trip, both probes vary by at least one, some skew is not zero, the cores and
/// the mean probe fit the class, the endpoint is in no datacenter prefix, the round trips are
/// not all within a rack, and the job took as long as the class needs.
pub proof fn law_when_a_quote_passes(a: AttestationView)
    requires
        a.lattice.len() <= u32::MAX,
        a.cache.len() <= u32::MAX,
    ensures
        ({
            let n = a.lattice.len();
            let m = a.cache.len();
            let (cores, probe, job) = match a.class {
                DeviceClass::IotSensor => (2int, 20_000int, 20_000int),
                DeviceClass::LegacyMobile => (8int, 8_000int, 15_000int),
                DeviceClass::PersonalComputer => (32int, 400int, 8_000int),
            };
            let ip = a.ipv4[0];
            a.fault() is None <==> {
                &&& a.seal() == a.quote
                &&& n >= 4 && m >= 4 && a.skew.len() >= 2 && a.rtt.len() >= 2
                &&& n * sum_of_squares(a.lattice) - sum_u64(a.lattice) * sum_u64(a.lattice) >= n
                    * n
                &&& m * sum_of_squares(a.cache) - sum_u64(a.cache) * sum_u64(a.cache) >= m * m
                &&& exists|i: int| 0 <= i < a.skew.len() && #[trigger] a.skew[i] != 0
                &&& 1 <= a.logical_cores <= cores
                &&& sum_u64(a.lattice) >= probe * n
                &&& ip != 3 && ip != 13 && ip != 18 && ip != 34 && ip != 35 && ip != 52 && ip != 54
                    && ip != 104
                &&& a.rtt.len() < 4 || exists|i: int|
                    0 <= i < a.rtt.len() && #[trigger] a.rtt[i] > 2
                &&& a.duration >= job
            }
        }),
{
    law_variance_is_exact(a.lattice, 1);
    law_variance_is_exact(a.cache, 1);
}

/// What a quote scores: 850 for the device, less 120 where the lattice probe varies by less than
/// five hundred; 800 for the endpoint, less 200 where the mean round trip is under eight
/// milliseconds. Each remark stands where its reason does.
pub proof fn law_score_of_a_quote(a: AttestationView)
    requires
        0 < a.rtt.len(),
        a.lattice.len() <= u32::MAX,
    ensures
        ({
            let n = a.lattice.len();
            let quiet = n * sum_of_squares(a.lattice) - sum_u64(a.lattice) * sum_u64(a.lattice)
                < 500 * (n * n);
            let near = sum_u16(a.rtt) < 8 * a.rtt.len();
            let home = a.ipv4[0] == 86 || a.ipv4[0] == 92 || a.ipv4[0] == 188;
            let s = a.score();
            &&& s.authenticity == (if quiet {
                730int
            } else {
                850int
            })
            &&& s.residential == (if near {
                600int
            } else {
                800int
            })
            &&& s.extra_difficulty_bits == 0
            &&& s.flags.contains(ScoreFlag::LowJitter) == quiet
            &&& s.flags.contains(ScoreFlag::LowRtt) == near
            &&& s.flags.contains(ScoreFlag::ResidentialPrefix) == home
        }),
{
    law_variance_is_exact(a.lattice, 500);
    let k = a.rtt.len() as int;
    let t = sum_u16(a.rtt) as int;
    assert(t / k < 8 <==> t < 8 * k) by (nonlinear_arith)
        requires
            k > 0,
            t >= 0,
    ;
    let f = a.score().flags;
    let quiet = a.low_jitter();
    let near = a.low_rtt();
    if quiet {
        assert(f[0] == ScoreFlag::LowJitter);
    }
    if near {
        assert(f[if quiet {
            1int
        } else {
            0int
        }] == ScoreFlag::LowRtt);
    }
    if a.residential_prefix() {
        assert(f[f.len() - 1] == ScoreFlag::ResidentialPrefix);
    }
}

/// When a submission is let through: exactly where its sender is not in quarantine, the job took
/// as long as its class needs, and a sender with three samples or more neither repeats its first
/// three to the nanosecond nor is ten times faster than its mean.
pub proof fn law_when_a_submission_is_let_through(
    p: PacedView,
    miner: Address,
    class: DeviceClass,
    sample: u64,
    epoch: u64,
)
    ensures
        ({
            let known = p.by_miner.contains_key(miner);
            let r = p.by_miner[miner];
            let job = match class {
                DeviceClass::IotSensor => 20_000int,
                DeviceClass::LegacyMobile => 15_000int,
                DeviceClass::PersonalComputer => 8_000int,
            };
            p.preview_fault(miner, class, sample, epoch) is None <==> {
                &&& !known || r.quarantined_until <= epoch
                &&& sample >= job
                &&& known && r.samples.len() >= 3 ==> {
                    &&& r.samples[0] != sample || r.samples[1] != sample || r.samples[2] != sample
                    &&& (10 * sample + 1) * r.samples.len() > sample_total(r.samples)
                }
            }
        }),
{
    let r = p.by_miner[miner];
    if p.by_miner.contains_key(miner) && r.samples.len() >= 3 {
        let n = r.samples.len() as int;
        let t = sample_total(r.samples) as int;
        let x = 10 * sample;
        assert(x < t / n <==> (x + 1) * n <= t) by (nonlinear_arith)
            requires
                n >= 3,
                t >= 0,
                x >= 0,
        ;
    }
}

/// A sample joins the history at its end, and the oldest leaves where nine would be kept. A
/// sender in quarantine, or a question that is not recorded, leaves the history alone.
pub proof fn law_history_keeps_the_last_eight(
    r: RecordView,
    class: DeviceClass,
    sample: u64,
    epoch: u64,
    record: bool,
)
    requires
        r.samples.len() <= 8,
    ensures
        ({
            let n = r.checked(class, sample, epoch, record);
            &&& n.class == class
            &&& r.quarantined_until > epoch || !record ==> n.samples == r.samples
            &&& r.quarantined_until <= epoch && record ==> {
                &&& n.samples.last() == sample
                &&& r.samples.len() < 8 ==> n.samples == r.samples.push(sample)
                &&& r.samples.len() == 8 ==> n.samples == r.samples.skip(1).push(sample)
            }
            &&& n.pace_bump == r.pace_bump
            &&& n.bot_flags == r.bot_flags
            &&& n.quarantined_until == r.quarantined_until
        }),
{
    assert(r.samples.len() == 8 ==> r.samples.push(sample).drop_first() =~= r.samples.skip(1).push(
        sample,
    ));
}

/// What a verdict does to a record. A violation raises the pace to twice one more than it was,
/// at most twelve, counts one flag more, and from a pace of four or the second flag on puts the
/// sender into quarantine for eight epochs. A clean job takes one off the pace and nothing else.
pub proof fn law_verdict_on_a_record(r: RecordView, epoch: u64, violated: bool)
    requires
        epoch <= u64::MAX - 8,
        r.bot_flags < u32::MAX,
    ensures
        ({
            let n = r.judged(epoch, violated);
            &&& n.samples == r.samples
            &&& n.class == r.class
            &&& violated ==> {
                &&& n.bot_flags == r.bot_flags + 1
                &&& r.pace_bump <= 5 ==> n.pace_bump == 2 * r.pace_bump + 2
                &&& r.pace_bump > 5 ==> n.pace_bump == 12
                &&& n.quarantined_until == (if r.pace_bump >= 1 || r.bot_flags >= 1 {
                    epoch + 8
                } else {
                    r.quarantined_until as int
                })
            }
            &&& !violated ==> {
                &&& n.bot_flags == r.bot_flags
                &&& n.quarantined_until == r.quarantined_until
                &&& n.pace_bump == (if r.pace_bump == 0 {
                    0int
                } else {
                    r.pace_bump - 1
                })
            }
        }),
{
}

/// A node that is known has to take as long as the class it was last seen with needs and must
/// not be in quarantine; an unknown one has to take eight microseconds. Asking marks the node as
/// seen and records no sample.
pub proof fn law_cadence_of_a_node(p: PacedView, node: u32, sample: u64)
    ensures
        !p.by_node.contains_key(node) ==> p.cadence_holds(node, sample) == (sample >= 8_000)
            && p.after_validation(node, sample) == p,
        p.by_node.contains_key(node) && p.by_miner.contains_key(p.by_node[node]) ==> {
            let r = p.by_miner[p.by_node[node]];
            let job = match r.class {
                DeviceClass::IotSensor => 20_000int,
                DeviceClass::LegacyMobile => 15_000int,
                DeviceClass::PersonalComputer => 8_000int,
            };
            &&& p.cadence_holds(node, sample) == (r.quarantined_until == 0 && sample >= job)
            &&& p.after_validation(node, sample).by_miner[p.by_node[node]].samples == r.samples
        },
{
}

/// Two endpoints are in one /24 exactly where their first three octets agree.
pub proof fn law_slash24_is_three_octets(a: [u8; 4], b: [u8; 4])
    ensures
        subnet_of(a) == subnet_of(b) <==> a@[0] == b@[0] && a@[1] == b@[1] && a@[2] == b@[2],
{
    let x = a@[0] * 0x100_0000 + a@[1] * 0x1_0000 + a@[2] * 0x100;
    let y = b@[0] * 0x100_0000 + b@[1] * 0x1_0000 + b@[2] * 0x100;
    assert(0 <= x < 0x1_0000_0000 && 0 <= y < 0x1_0000_0000);
}

/// Whom the filter of a crowded /24 keeps. A candidate from a datacenter prefix is never kept. Of
/// the others the one that nobody of its /24 stands before is kept, and one that two of them
/// stand before is not.
pub proof fn law_best_of_a_subnet_is_kept(
    m: Map<Address, NodeReputation>,
    c: Seq<(Address, [u8; 4])>,
    i: int,
)
    requires
        0 <= i < c.len(),
    ensures
        ({
            let ip = c[i].1@[0];
            let farm = ip == 3 || ip == 13 || ip == 18 || ip == 34 || ip == 35 || ip == 52 || ip
                == 54 || ip == 104;
            &&& farm ==> !is_kept(m, c, i)
            &&& !farm && (forall|j: int| 0 <= j < c.len() ==> !(#[trigger] outdoes(m, c, j, i)))
                ==> is_kept(m, c, i)
            &&& (exists|j: int, k: int|
                0 <= j < k < c.len() && #[trigger] outdoes(m, c, j, i) && #[trigger] outdoes(
                    m,
                    c,
                    k,
                    i,
                )) ==> !is_kept(m, c, i)
        }),
{
    if forall|j: int| 0 <= j < c.len() ==> !(#[trigger] outdoes(m, c, j, i)) {
        lemma_nobody_ahead(m, c, i, c.len());
    }
    if exists|j: int, k: int|
        0 <= j < k < c.len() && #[trigger] outdoes(m, c, j, i) && #[trigger] outdoes(m, c, k, i) {
        let (j, k) = choose|j: int, k: int|
            0 <= j < k < c.len() && #[trigger] outdoes(m, c, j, i) && #[trigger] outdoes(m, c, k, i);
        lemma_ahead_grows(m, c, i, 0, j as nat);
        lemma_ahead_grows(m, c, i, (j + 1) as nat, k as nat);
        lemma_ahead_grows(m, c, i, (k + 1) as nat, c.len());
    }
}

proof fn lemma_nobody_ahead(
    m: Map<Address, NodeReputation>,
    c: Seq<(Address, [u8; 4])>,
    i: int,
    n: nat,
)
    requires
        n <= c.len(),
        forall|j: int| 0 <= j < c.len() ==> !(#[trigger] outdoes(m, c, j, i)),
    ensures
        ahead(m, c, i, n) == 0,
    decreases n,
{
    if n > 0 {
        lemma_nobody_ahead(m, c, i, (n - 1) as nat);
        assert(!outdoes(m, c, n - 1, i));
    }
}

proof fn lemma_ahead_grows(
    m: Map<Address, NodeReputation>,
    c: Seq<(Address, [u8; 4])>,
    i: int,
    a: nat,
    b: nat,
)
    requires
        a <= b,
    ensures
        ahead(m, c, i, a) <= ahead(m, c, i, b),
    decreases b,
{
    if a < b {
        lemma_ahead_grows(m, c, i, a, (b - 1) as nat);
    }
}

/// Who stands before whom in a /24: the better rated one, who starts at one hundred while
/// unrated, and of two that are rated alike the one with the smaller address.
pub proof fn law_better_rated_stands_first(
    m: Map<Address, NodeReputation>,
    c: Seq<(Address, [u8; 4])>,
    j: int,
    i: int,
)
    requires
        0 <= i < c.len(),
        0 <= j < c.len(),
        subnet_of(c[j].1) == subnet_of(c[i].1),
        !crate::anti_bot::reputation::is_farm(c[j]),
    ensures
        ({
            let si = if m.contains_key(c[i].0) {
                m[c[i].0].score as int
            } else {
                100
            };
            let sj = if m.contains_key(c[j].0) {
                m[c[j].0].score as int
            } else {
                100
            };
            &&& sj > si ==> outdoes(m, c, j, i)
            &&& sj < si ==> !outdoes(m, c, j, i)
            &&& sj == si && crate::bytes::be_value(c[j].0@) < crate::bytes::be_value(c[i].0@)
                ==> outdoes(m, c, j, i)
            &&& sj == si && crate::bytes::be_value(c[j].0@) > crate::bytes::be_value(c[i].0@)
                ==> !outdoes(m, c, j, i)
        }),
{
}

/// How a quote moves a reputation: up by a fiftieth of its authenticity and an eightieth of its
/// residential score, down by ten, and never out of the range from zero to one thousand.
pub proof fn law_quote_moves_a_reputation(base: int, authenticity: u16, residential: u16)
    ensures
        ({
            let moved = base + authenticity as int / 50 + residential as int / 80 - 10;
            let r = clamped(base + score_delta(authenticity, residential));
            &&& 0 <= moved <= 1_000 ==> r == moved
            &&& moved < 0 ==> r == 0
            &&& moved > 1_000 ==> r == 1_000
        }),
{
}

/// What the classes of devices are rated at. A PC is the only one that does not mind its battery.
pub proof fn law_profiles_of_the_classes()
    ensures
        ({
            let s = profile_of(DeviceClass::IotSensor);
            let m = profile_of(DeviceClass::LegacyMobile);
            let p = profile_of(DeviceClass::PersonalComputer);
            &&& (s.ram_kib, m.ram_kib, p.ram_kib) == (32u32, 256u32, 4_096u32)
            &&& (s.estimated_mhz, m.estimated_mhz, p.estimated_mhz) == (48u32, 400u32, 2_500u32)
            &&& s.battery_aware && m.battery_aware && !p.battery_aware
        }),
        forall|c: DeviceClass| (#[trigger] profile_of(c)).class == c,
{
}

/// A simulated measurement lies within its width of what it is drawn around.
pub proof fn law_jitter_stays_near(seed: [u8; 32], idx: u32, base: u64, width: u64)
    requires
        1 <= width <= base,
        base + 2 * width < u64::MAX,
    ensures
        base - width <= jittered(seed, idx, base, width) <= base + width,
{
    let h = crate::crypto::hash::sha256_of(
        seed@ + crate::bytes::le_bytes(idx as nat, 4) + vstd::utf8::encode_utf8("jitter"@),
    );
    let r = crate::bytes::le_value(h@.subrange(0, 8)) as int;
    vstd::arithmetic::div_mod::lemma_mod_bound(r, 2 * width + 1);
}

/// An honest quote is its miner's, of its class and for its address, sealed, of six, six, four
/// and four measurements, and never shorter than the least that is believed.
pub proof fn law_honest_quote_is_sealed(
    class: DeviceClass,
    miner: Address,
    ipv4: Seq<u8>,
    duration: u64,
)
    ensures
        ({
            let q = honest_quote(class, miner, ipv4, duration);
            &&& q.miner == miner
            &&& q.class == class
            &&& q.ipv4 == ipv4
            &&& q.lattice.len() == 6 && q.cache.len() == 6 && q.skew.len() == 4 && q.rtt.len() == 4
            &&& q.duration >= 25_000
            &&& duration >= 25_000 ==> q.duration == duration
            &&& q.quote == q.seal()
        }),
{
}

/// Halving rounds toward zero.
pub proof fn law_half_rounds_toward_zero(x: int)
    ensures
        x >= 0 ==> 2 * half(x) <= x < 2 * half(x) + 2,
        half(-x) == -half(x),
{
}

/// What an offence costs: a hard one all of a reputation, another one half of it and 25 more.
/// The rest of the record stays.
pub proof fn law_what_an_offence_costs(base: NodeReputation)
    requires
        0 <= base.score <= 1_000,
    ensures
        penalised(base, true).score == 0,
        2 * (penalised(base, false).score + 25) <= base.score < 2 * (penalised(base, false).score
            + 25) + 2,
        penalised(base, true) == (NodeReputation { score: 0, ..base }),
        penalised(base, false) == (NodeReputation { score: penalised(base, false).score, ..base }),
{
}

/// A node has the class that its miner was last seen with; one whose miner is not on record
/// counts as a PC.
pub proof fn law_class_of_a_node(p: PacedView, node: u32)
    ensures
        p.by_miner.contains_key(p.by_node[node]) ==> p.class_of(node) == p.by_miner[
            p.by_node[node]
        ].class,
        !p.by_miner.contains_key(p.by_node[node]) ==> p.class_of(node)
            == DeviceClass::PersonalComputer,
{
}

} // verus!
