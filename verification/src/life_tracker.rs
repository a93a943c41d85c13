//! In-flight submissions and their FIFO reaping.
//!
//! Every hardware submission leaves one [`SubmissionRecord`] here, ordered
//! by submission index. Records are reaped strictly in order: a record is
//! popped only once its fence has been observed signaled and every earlier
//! record has already been popped, whatever order fences were observed in.

use vstd::prelude::*;
use crate::command::Command;
use crate::command::StagingBuffer;

verus! {

/// Everything one submission leaves behind until its fence signals.
pub struct SubmissionRecord {
    /// The submission's index; strictly increasing across records.
    pub index: u64,
    /// Whether the submission's completion fence was observed signaled.
    pub fence_signaled: bool,
    /// The commands handed to the hardware queue.
    pub commands: Vec<Command>,
    /// Surfaces whose frame must be signaled on completion.
    pub signal_swap_chains: Vec<u64>,
    /// Buffers whose last reference vanished while this submission was
    /// assembled; destroyed on reaping if still unreferenced.
    pub suspected_buffers: Vec<u64>,
    /// Likewise for the other resource kinds.
    pub suspected_textures: Vec<u64>,
    /// Staging buffers owned by this submission; freed only on reaping.
    pub temp_buffers: Vec<StagingBuffer>,
}

/// Record indices strictly increase along the queue.
pub open spec fn indices_increasing(s: Seq<SubmissionRecord>) -> bool {
    forall|i: int, j: int| 0 <= i < j < s.len() ==> s[i].index < s[j].index
}

/// The staging buffers of a batch of records, in order.
pub open spec fn concat_temps(s: Seq<SubmissionRecord>) -> Seq<StagingBuffer>
    decreases s.len(),
{
    if s.len() == 0 {
        Seq::empty()
    } else {
        concat_temps(s.drop_last()) + s.last().temp_buffers@
    }
}

/// Every staging buffer freed by a reap comes out of a record whose fence
/// was observed signaled: none is freed early.
pub proof fn lemma_freed_only_after_signal(s: Seq<SubmissionRecord>, n: int)
    requires
        forall|i: int| 0 <= i < s.len() ==> s[i].fence_signaled,
        0 <= n < concat_temps(s).len(),
    ensures
        exists|k: int|
            0 <= k < s.len() && (#[trigger] s[k]).fence_signaled && s[k].temp_buffers@.contains(
                concat_temps(s)[n],
            ),
    decreases s.len(),
{
    if s.len() > 0 {
        let head_len = concat_temps(s.drop_last()).len();
        if n < head_len {
            lemma_freed_only_after_signal(s.drop_last(), n);
            let k = choose|k: int|
                0 <= k < s.drop_last().len() && (#[trigger] s.drop_last()[k]).fence_signaled
                    && s.drop_last()[k].temp_buffers@.contains(concat_temps(s.drop_last())[n]);
            assert(s[k] == s.drop_last()[k]);
            assert(concat_temps(s)[n] == concat_temps(s.drop_last())[n]);
        } else {
            let k = s.len() - 1;
            assert(concat_temps(s)[n] == s.last().temp_buffers@[n - head_len]);
            assert(s[k].temp_buffers@.contains(concat_temps(s)[n]));
        }
    }
}

/// The ordered queue of in-flight submissions.
pub struct LifeTracker {
    pub records: Vec<SubmissionRecord>,
}

impl LifeTracker {
    pub open spec fn wf(self) -> bool {
        indices_increasing(self.records@)
    }

    pub fn new() -> (r: LifeTracker)
        ensures
            r.wf(),
            r.records@ == Seq::<SubmissionRecord>::empty(),
    {
        LifeTracker { records: Vec::new() }
    }

    /// Enqueues a new submission record at the tail. Submission indices are
    /// handed out in increasing order, so the new record's index exceeds
    /// every queued one.
    pub fn track_submission(&mut self, record: SubmissionRecord)
        requires
            old(self).wf(),
            forall|i: int|
                0 <= i < old(self).records@.len() ==> (#[trigger] old(self).records@[i]).index
                    < record.index,
        ensures
            final(self).wf(),
            final(self).records@ == old(self).records@.push(record),
    {
        self.records.push(record);
    }

    /// Pops and returns the longest signaled prefix of the queue: records
    /// are reaped first-in first-out, and reaping stops at the first record
    /// whose fence has not been observed signaled, even if a later fence
    /// has.
    pub fn reap_signaled(&mut self) -> (reaped: Vec<SubmissionRecord>)
        ensures
            reaped@.len() <= old(self).records@.len(),
            reaped@ == old(self).records@.take(reaped@.len() as int),
            final(self).records@ == old(self).records@.skip(reaped@.len() as int),
            forall|i: int| 0 <= i < reaped@.len() ==> (#[trigger] reaped@[i]).fence_signaled,
            reaped@.len() < old(self).records@.len() ==> !old(self).records@[reaped@.len() as int].fence_signaled,
            old(self).wf() ==> final(self).wf(),
    {
        let ghost records0 = self.records@;
        let mut reaped: Vec<SubmissionRecord> = Vec::new();
        while self.records.len() > 0 && self.records[0].fence_signaled
            invariant
                records0 == reaped@ + self.records@,
                forall|i: int| 0 <= i < reaped@.len() ==> (#[trigger] reaped@[i]).fence_signaled,
            decreases self.records@.len(),
        {
            let r = self.records.remove(0);
            reaped.push(r);
        }
        proof {
            assert(reaped@ =~= records0.take(reaped@.len() as int));
            assert(self.records@ =~= records0.skip(reaped@.len() as int));
            if reaped@.len() < records0.len() {
                assert(records0[reaped@.len() as int] == self.records@[0]);
            }
            if indices_increasing(records0) {
                assert forall|i: int, j: int|
                    0 <= i < j < self.records@.len() implies self.records@[i].index
                    < self.records@[j].index by {
                    assert(self.records@[i] == records0[reaped@.len() + i]);
                    assert(self.records@[j] == records0[reaped@.len() + j]);
                }
            }
        }
        reaped
    }
}

/// First-in first-out reaping: every record of a reaped batch carries a
/// smaller submission index than every record still in flight, and the
/// batch itself is reaped in submission order. A submission submitted
/// earlier is therefore always fully reaped before a later one.
pub proof fn lemma_reap_is_fifo(
    before: Seq<SubmissionRecord>,
    reaped: Seq<SubmissionRecord>,
    after: Seq<SubmissionRecord>,
)
    requires
        indices_increasing(before),
        reaped.len() <= before.len(),
        reaped == before.take(reaped.len() as int),
        after == before.skip(reaped.len() as int),
    ensures
        indices_increasing(reaped),
        forall|i: int, j: int|
            0 <= i < reaped.len() && 0 <= j < after.len() ==> (#[trigger] reaped[i]).index < (
            #[trigger] after[j]).index,
{
    assert forall|i: int, j: int| 0 <= i < j < reaped.len() implies reaped[i].index
        < reaped[j].index by {
        assert(reaped[i] == before[i]);
        assert(reaped[j] == before[j]);
    }
    assert forall|i: int, j: int|
        0 <= i < reaped.len() && 0 <= j < after.len() implies (#[trigger] reaped[i]).index < (
    #[trigger] after[j]).index by {
        assert(reaped[i] == before[i]);
        assert(after[j] == before[reaped.len() + j]);
    }
}

} // verus!
