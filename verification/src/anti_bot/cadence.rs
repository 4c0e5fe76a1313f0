//! Paced attach: bursts that a claimed device cannot sustain are flagged.

use std::collections::HashMap;
use vstd::prelude::*;

use crate::anti_bot::attestation::{min_cadence, min_duration_of, miner_node_id, SecurityError};
use crate::anti_bot::profile::DeviceClass;
use crate::bytes::le_value;
use crate::table::Table;
use crate::types::{Address, NodeId};

verus! {

broadcast use vstd::std_specs::hash::group_hash_axioms;

/// Most samples that are kept per identity.
pub const HISTORY: usize = 8;

/// How long a quarantine lasts.
pub const QUARANTINE_EPOCHS: u64 = 8;

/// What is kept of one identity. Durations are nanoseconds.
#[derive(Debug)]
pub struct CadenceRecord {
    class: DeviceClass,
    samples: Vec<u64>,
    pace_bump: u32,
    quarantined_until: u64,
    bot_flags: u32,
}

/// A record as mathematical data.
#[verifier::ext_equal]
pub struct RecordView {
    pub class: DeviceClass,
    pub samples: Seq<u64>,
    pub pace_bump: u32,
    pub quarantined_until: u64,
    pub bot_flags: u32,
}

impl View for CadenceRecord {
    type V = RecordView;

    closed spec fn view(&self) -> RecordView {
        RecordView {
            class: self.class,
            samples: self.samples@,
            pace_bump: self.pace_bump,
            quarantined_until: self.quarantined_until,
            bot_flags: self.bot_flags,
        }
    }
}

impl RecordView {
    pub open spec fn fresh(class: DeviceClass) -> RecordView {
        RecordView {
            class,
            samples: Seq::empty(),
            pace_bump: 0,
            quarantined_until: 0,
            bot_flags: 0,
        }
    }

    /// The record after a check in `epoch`: the class is taken over, and unless
    /// the identity is quarantined a recorded sample joins the history.
    pub open spec fn checked(self, class: DeviceClass, sample: u64, epoch: u64, record: bool) -> RecordView {
        let known = RecordView { class, ..self };
        if self.quarantined_until > epoch || !record {
            known
        } else {
            let all = self.samples.push(sample);
            RecordView {
                samples: if all.len() > HISTORY {
                    all.drop_first()
                } else {
                    all
                },
                ..known
            }
        }
    }

    /// The record after a verdict on the sample.
    pub open spec fn judged(self, epoch: u64, violated: bool) -> RecordView {
        if violated {
            let bump = raised(self.pace_bump);
            let flags = if self.bot_flags == u32::MAX {
                self.bot_flags
            } else {
                (self.bot_flags + 1) as u32
            };
            RecordView {
                pace_bump: bump,
                bot_flags: flags,
                quarantined_until: if bump >= 4 || flags >= 2 {
                    if epoch + QUARANTINE_EPOCHS > u64::MAX {
                        u64::MAX
                    } else {
                        (epoch + QUARANTINE_EPOCHS) as u64
                    }
                } else {
                    self.quarantined_until
                },
                ..self
            }
        } else if self.pace_bump > 0 {
            RecordView { pace_bump: (self.pace_bump - 1) as u32, ..self }
        } else {
            self
        }
    }
}

/// `2 (bump + 1)`, at most twelve.
pub open spec fn raised(bump: u32) -> u32 {
    if 2 * (bump + 1) > 12 {
        12
    } else {
        (2 * (bump + 1)) as u32
    }
}

/// Per-identity submission clock.
pub struct PacedVerifier {
    by_node: HashMap<NodeId, Address>,
    by_miner: Table<32, CadenceRecord>,
}

/// The clock as mathematical data.
#[verifier::ext_equal]
pub struct PacedView {
    pub by_node: Map<NodeId, Address>,
    pub by_miner: Map<Address, RecordView>,
}

pub open spec fn record_views(m: Map<Address, CadenceRecord>) -> Map<Address, RecordView> {
    m.map_values(|r: CadenceRecord| r@)
}

/// The compact id of an address.
pub open spec fn node_id_of(a: Address) -> NodeId {
    le_value(a@.subrange(0, 4)) as u32
}

impl View for PacedVerifier {
    type V = PacedView;

    closed spec fn view(&self) -> PacedView {
        PacedView { by_node: self.by_node@, by_miner: record_views(self.by_miner@) }
    }
}

impl PacedView {
    pub open spec fn blank() -> PacedView {
        PacedView { by_node: Map::empty(), by_miner: Map::empty() }
    }

    /// The record of a miner, or a fresh one.
    pub open spec fn record(self, miner: Address, class: DeviceClass) -> RecordView {
        if self.by_miner.contains_key(miner) {
            self.by_miner[miner]
        } else {
            RecordView::fresh(class)
        }
    }

    pub open spec fn quarantined(self, miner: Address, epoch: u64) -> bool {
        self.by_miner.contains_key(miner) && self.by_miner[miner].quarantined_until > epoch
    }

    /// The clock after a check.
    pub open spec fn checked(
        self,
        miner: Address,
        class: DeviceClass,
        sample: u64,
        epoch: u64,
        record: bool,
    ) -> PacedView {
        PacedView {
            by_node: self.by_node.insert(node_id_of(miner), miner),
            by_miner: self.by_miner.insert(
                miner,
                self.record(miner, class).checked(class, sample, epoch, record),
            ),
        }
    }

    /// The class that a node was last seen with.
    pub open spec fn class_of(self, node_id: NodeId) -> DeviceClass {
        let a = self.by_node[node_id];
        if self.by_miner.contains_key(a) {
            self.by_miner[a].class
        } else {
            DeviceClass::PersonalComputer
        }
    }

    /// Whether the last job of a node took long enough. An unknown node only has
    /// to be slower than eight microseconds.
    pub open spec fn cadence_holds(self, node_id: NodeId, sample: u64) -> bool {
        if self.by_node.contains_key(node_id) {
            !self.quarantined(self.by_node[node_id], 0) && sample >= min_duration_of(
                self.class_of(node_id),
            )
        } else {
            sample >= 8_000
        }
    }

    /// The clock after that question.
    pub open spec fn after_validation(self, node_id: NodeId, sample: u64) -> PacedView {
        if self.by_node.contains_key(node_id) {
            self.checked(self.by_node[node_id], self.class_of(node_id), sample, 0, false)
        } else {
            self
        }
    }

    /// Why a submission would be refused, if it would.
    pub open spec fn preview_fault(
        self,
        miner: Address,
        class: DeviceClass,
        sample: u64,
        epoch: u64,
    ) -> Option<SecurityError> {
        let past = self.by_miner[miner].samples;
        let seasoned = self.by_miner.contains_key(miner) && past.len() >= 3;
        if self.quarantined(miner, epoch) {
            Some(SecurityError::Quarantined)
        } else if sample < min_duration_of(class) {
            Some(SecurityError::ImpossibleCadence)
        } else if seasoned && past[0] == sample && past[1] == sample && past[2] == sample {
            Some(SecurityError::VirtualMachineFingerprint)
        } else if seasoned && 10 * sample < sample_total(past) / past.len() {
            Some(SecurityError::ImpossibleCadence)
        } else {
            None
        }
    }
}

pub open spec fn sample_total(s: Seq<u64>) -> nat
    decreases s.len(),
{
    if s.len() == 0 {
        0
    } else {
        sample_total(s.drop_last()) + s.last() as nat
    }
}

impl PacedVerifier {
    pub closed spec fn wf(&self) -> bool {
        self.by_miner.wf()
    }

    pub fn new() -> (r: Self)
        ensures
            r.wf(),
            r@ == PacedView::blank(),
    {
        let r = PacedVerifier { by_node: HashMap::new(), by_miner: Table::new() };
        assert(r@ =~= PacedView::blank());
        r
    }

    pub fn is_quarantined(&self, miner: &Address, epoch: u64) -> (r: bool)
        requires
            self.wf(),
        ensures
            r == self@.quarantined(*miner, epoch),
    {
        match self.by_miner.get(miner) {
            Some(rec) => rec.quarantined_until > epoch,
            None => false,
        }
    }

    pub fn pace_bump(&self, miner: &Address) -> (r: u32)
        requires
            self.wf(),
        ensures
            r == (if self@.by_miner.contains_key(*miner) {
                self@.by_miner[*miner].pace_bump
            } else {
                0
            }),
    {
        match self.by_miner.get(miner) {
            Some(rec) => rec.pace_bump,
            None => 0,
        }
    }

    pub fn bot_flags(&self, miner: &Address) -> (r: u32)
        requires
            self.wf(),
        ensures
            r == (if self@.by_miner.contains_key(*miner) {
                self@.by_miner[*miner].bot_flags
            } else {
                0
            }),
    {
        match self.by_miner.get(miner) {
            Some(rec) => rec.bot_flags,
            None => 0,
        }
    }

    /// Checks the duration of the last job of a node. An unknown node only has
    /// to be slower than eight microseconds.
    pub fn validate_mining_cadence(&mut self, node_id: NodeId, submission_ns: u64) -> (r: bool)
        requires
            old(self).wf(),
        ensures
            final(self).wf(),
            final(self)@ == old(self)@.after_validation(node_id, submission_ns),
            r == old(self)@.cadence_holds(node_id, submission_ns),
    {
        let addr = match self.by_node.get(&node_id) {
            Some(a) => *a,
            None => {
                return submission_ns >= 8_000;
            },
        };
        let class = match self.by_miner.get(&addr) {
            Some(rec) => rec.class,
            None => DeviceClass::PersonalComputer,
        };
        self.check(&addr, class, submission_ns, 0, false)
    }

    /// What a submission would be refused for.
    pub fn preview(&self, miner: &Address, class: DeviceClass, submission_ns: u64, epoch: u64) -> (r:
        Result<(), SecurityError>)
        requires
            self.wf(),
        ensures
            match r {
                Ok(()) => self@.preview_fault(*miner, class, submission_ns, epoch) is None,
                Err(e) => self@.preview_fault(*miner, class, submission_ns, epoch) == Some(e),
            },
    {
        if self.is_quarantined(miner, epoch) {
            return Err(SecurityError::Quarantined);
        }
        if submission_ns < min_cadence(class) {
            return Err(SecurityError::ImpossibleCadence);
        }
        if let Some(rec) = self.by_miner.get(miner) {
            let past = &rec.samples;
            assert(self@.by_miner[*miner].samples == past@);
            if past.len() >= 3 {
                if past[0] == submission_ns && past[1] == submission_ns && past[2]
                    == submission_ns {
                    return Err(SecurityError::VirtualMachineFingerprint);
                }
                let mean: u128 = mean_of(past);
                if (submission_ns as u128) * 10 < mean {
                    return Err(SecurityError::ImpossibleCadence);
                }
            }
        }
        Ok(())
    }

    /// Records a sample and the verdict on it.
    pub fn commit_sample(
        &mut self,
        miner: Address,
        class: DeviceClass,
        submission_ns: u64,
        epoch: u64,
        violated: bool,
    )
        requires
            old(self).wf(),
        ensures
            final(self).wf(),
            final(self)@ == (PacedView {
                by_node: old(self)@.by_node.insert(node_id_of(miner), miner),
                by_miner: old(self)@.by_miner.insert(
                    miner,
                    old(self)@.record(miner, class).checked(
                        class,
                        submission_ns,
                        epoch,
                        true,
                    ).judged(epoch, violated),
                ),
            }),
    {
        let _ = self.check(&miner, class, submission_ns, epoch, true);
        let ghost mid = self.by_miner@;
        if let Some(old_rec) = self.by_miner.remove(&miner) {
            let mut rec = old_rec;
            let ghost before = rec@;
            if violated {
                let up: u32 = if rec.pace_bump >= 5 { 12 } else { 2 * (rec.pace_bump + 1) };
                rec.pace_bump = up;
                rec.bot_flags = rec.bot_flags.saturating_add(1);
                if rec.pace_bump >= 4 || rec.bot_flags >= 2 {
                    rec.quarantined_until = epoch.saturating_add(QUARANTINE_EPOCHS);
                }
            } else if rec.pace_bump > 0 {
                rec.pace_bump = rec.pace_bump - 1;
            }
            assert(rec@ =~= before.judged(epoch, violated));
            self.by_miner.insert(miner, rec);
            assert(record_views(self.by_miner@) =~= record_views(mid).insert(
                miner,
                before.judged(epoch, violated),
            ));
        }
        proof {
            let rec = old(self)@.record(miner, class).checked(class, submission_ns, epoch, true);
            assert(record_views(mid)[miner] == rec);
            assert(self@.by_miner =~= old(self)@.by_miner.insert(
                miner,
                rec.judged(epoch, violated),
            ));
        }
    }

    fn check(
        &mut self,
        miner: &Address,
        class: DeviceClass,
        submission_ns: u64,
        epoch: u64,
        record: bool,
    ) -> (r: bool)
        requires
            old(self).wf(),
        ensures
            final(self).wf(),
            final(self)@ == old(self)@.checked(*miner, class, submission_ns, epoch, record),
            final(self).by_miner@.contains_key(*miner),
            r == (!old(self)@.quarantined(*miner, epoch) && submission_ns >= min_duration_of(
                class,
            )),
    {
        let id: NodeId = miner_node_id(miner);
        self.by_node.insert(id, *miner);
        let ghost m0 = self.by_miner@;
        let mut rec = match self.by_miner.remove(miner) {
            Some(rec) => rec,
            None => CadenceRecord {
                class,
                samples: Vec::new(),
                pace_bump: 0,
                quarantined_until: 0,
                bot_flags: 0,
            },
        };
        let ghost before = rec@;
        assert(before =~= old(self)@.record(*miner, class));
        rec.class = class;
        let quarantined = rec.quarantined_until > epoch;
        if !quarantined && record {
            rec.samples.push(submission_ns);
            if rec.samples.len() > HISTORY {
                let _ = rec.samples.remove(0);
                assert(rec.samples@ =~= before.samples.push(submission_ns).drop_first());
            }
        }
        assert(rec@ =~= before.checked(class, submission_ns, epoch, record));
        self.by_miner.insert(*miner, rec);
        assert(record_views(self.by_miner@) =~= record_views(m0).insert(
            *miner,
            before.checked(class, submission_ns, epoch, record),
        ));
        !quarantined && submission_ns >= min_cadence(class)
    }
}

fn mean_of(xs: &Vec<u64>) -> (r: u128)
    requires
        xs@.len() > 0,
    ensures
        r == sample_total(xs@) / xs@.len(),
{
    let mut sum: u128 = 0;
    let mut i: usize = 0;
    while i < xs.len()
        invariant
            i <= xs.len(),
            sum == sample_total(xs@.take(i as int)),
            sum <= i * u64::MAX,
        decreases xs.len() - i,
    {
        proof {
            assert(xs@.take(i + 1).drop_last() =~= xs@.take(i as int));
            assert((i + 1) * u64::MAX == i * u64::MAX + u64::MAX) by (nonlinear_arith);
            assert((i + 1) * u64::MAX <= u64::MAX * u64::MAX) by (nonlinear_arith)
                requires
                    0 <= i < u64::MAX,
            ;
        }
        sum = sum + xs[i] as u128;
        i += 1;
    }
    assert(xs@.take(i as int) =~= xs@);
    sum / (xs.len() as u128)
}

/// A history never grows beyond its limit.
pub proof fn law_history_is_bounded(r: RecordView, class: DeviceClass, sample: u64, epoch: u64)
    requires
        r.samples.len() <= HISTORY,
    ensures
        r.checked(class, sample, epoch, true).samples.len() <= HISTORY,
        r.checked(class, sample, epoch, false).samples.len() <= HISTORY,
{
}

/// Two violations quarantine an identity, and a quarantined one takes no samples.
pub proof fn law_repeat_offender_is_quarantined(r: RecordView, epoch: u64, sample: u64, class: DeviceClass)
    requires
        r.bot_flags >= 1,
        epoch + QUARANTINE_EPOCHS <= u64::MAX,
    ensures
        r.judged(epoch, true).quarantined_until == epoch + QUARANTINE_EPOCHS,
        r.judged(epoch, true).checked(class, sample, epoch, true).samples == r.samples,
        r.judged(epoch, true).pace_bump <= 12,
{
}

} // verus!
