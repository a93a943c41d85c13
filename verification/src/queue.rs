//! The device context and the submission pipeline.
//!
//! A [`Device`] owns the resource storages, the usage tracker, the pending
//! writes, and the queue of in-flight submissions. `queue_write_buffer`
//! records a deferred upload; `queue_submit` stitches command buffers with
//! minimal barriers into one hardware submission; `maintain` reaps
//! completed submissions in order, frees their staging memory, finalizes
//! suspected resources and collects mapping callbacks.

use vstd::prelude::*;
use crate::command::Command;
use crate::command::StagingBuffer;
use crate::command::apply_commands;
use crate::command::clone_bytes;
use crate::command::contents_of;
use crate::command::execute_commands;
use crate::command::temps_bytes;
use crate::life_tracker::LifeTracker;
use crate::life_tracker::SubmissionRecord;
use crate::life_tracker::concat_temps;
use crate::pending::DeferredCommands;
use crate::pending::PendingWrites;
use crate::resource::Buffer;
use crate::resource::CommandBuffer;
use crate::resource::MapState;
use crate::resource::SwapChain;
use crate::resource::Texture;
use crate::storage::Storage;
use crate::track::Tracker;
use crate::track::uses_id;
use crate::track::opt_has;

verus! {

/// The surface-signal list of one submission, held in a
/// `smallvec::SmallVec` that stores one surface handle inline: almost every
/// submission presents to at most one surface, so the common case stays off
/// the heap.
#[verifier::external_body]
pub struct SignalList {
    list: smallvec::SmallVec<[u64; 1]>,
}

/// What a surface-signal list holds, in push order.
pub uninterp spec fn signal_list_view(v: SignalList) -> Seq<u64>;

/// Relies on smallvec::SmallVec::new: constructs an empty vector.
#[verifier::external_body]
fn signal_list_new() -> (r: SignalList)
    ensures
        signal_list_view(r) == Seq::<u64>::empty(),
{
    SignalList { list: smallvec::SmallVec::new() }
}

/// Relies on smallvec::SmallVec::push: appends one element at the end.
#[verifier::external_body]
fn signal_list_push(v: &mut SignalList, x: u64)
    ensures
        signal_list_view(*final(v)) == signal_list_view(*old(v)).push(x),
{
    v.list.push(x)
}

/// Relies on the slice view of smallvec::SmallVec (its `Deref` impl) and on
/// `<[u64]>::to_vec`: copies the elements out in order.
#[verifier::external_body]
fn signal_list_to_vec(v: &SignalList) -> (r: Vec<u64>)
    ensures
        r@ == signal_list_view(*v),
{
    v.list.to_vec()
}

/// What one maintenance pass produced: staging buffers released to the
/// memory allocator, resources finalized, and mapping callbacks ready to
/// fire now that the submissions that used their buffers have completed.
pub struct MaintainResult {
    pub freed_staging: Vec<StagingBuffer>,
    pub destroyed_buffers: Vec<u64>,
    pub destroyed_textures: Vec<u64>,
    pub callbacks: Vec<u64>,
}

/// The per-device context: every operation of the pipeline works on one of
/// these, passed by reference; there is no ambient state.
pub struct Device {
    /// Index of the most recent submission; the next submission gets
    /// `submission_index + 1`.
    pub submission_index: u64,
    pub buffers: Storage<Buffer>,
    pub textures: Storage<Texture>,
    pub command_buffers: Storage<CommandBuffer>,
    pub swap_chains: Storage<SwapChain>,
    /// Current hardware usage state of every live buffer.
    pub trackers: Tracker,
    pub pending_writes: PendingWrites,
    pub life_tracker: LifeTracker,
}

impl Device {
    pub open spec fn wf(self) -> bool {
        &&& self.buffers.wf()
        &&& self.textures.wf()
        &&& self.command_buffers.wf()
        &&& self.swap_chains.wf()
        &&& self.trackers.wf()
        &&& self.life_tracker.wf()
        &&& self.trackers.states@.dom() == self.buffers@.dom()
        &&& forall|id: u64|
            #[trigger] self.buffers@.contains_key(id) ==> self.buffers@[id].life_guard.last_use
                <= self.submission_index + 1
        &&& forall|id: u64|
            #[trigger] self.textures@.contains_key(id) ==> self.textures@[id].life_guard.last_use
                <= self.submission_index + 1
        &&& forall|i: int|
            0 <= i < self.life_tracker.records@.len() ==> (
            #[trigger] self.life_tracker.records@[i]).index <= self.submission_index
    }

    /// A fresh device: no resources, no pending writes, nothing in flight.
    pub fn new() -> (d: Device)
        ensures
            d.wf(),
            d.submission_index == 0,
            d.buffers@ == Map::<u64, Buffer>::empty(),
            d.textures@ == Map::<u64, Texture>::empty(),
            d.command_buffers@ == Map::<u64, CommandBuffer>::empty(),
            d.swap_chains@ == Map::<u64, SwapChain>::empty(),
            d.pending_writes.command_buffer is Empty,
            d.pending_writes.temp_buffers@.len() == 0,
            d.life_tracker.records@.len() == 0,
    {
        Device {
            submission_index: 0,
            buffers: Storage::new(),
            textures: Storage::new(),
            command_buffers: Storage::new(),
            swap_chains: Storage::new(),
            trackers: Tracker::new(),
            pending_writes: PendingWrites::new(),
            life_tracker: LifeTracker::new(),
        }
    }

    /// Creates a buffer of `size` zeroed bytes under the free handle `id`,
    /// with one external reference, and starts tracking it.
    pub fn create_buffer(&mut self, id: u64, usage: u32, size: usize)
        requires
            old(self).wf(),
            !old(self).buffers@.contains_key(id),
        ensures
            final(self).wf(),
            final(self).buffers@.dom() == old(self).buffers@.dom().insert(id),
            final(self).buffers@[id].usage == usage,
            final(self).buffers@[id].map_state is Idle,
            final(self).buffers@[id].life_guard.ref_count == 1,
            final(self).buffers@[id].life_guard.last_use == 0,
            final(self).buffers@[id].contents@ == Seq::new(size as nat, |i: int| 0u8),
            forall|o: u64|
                o != id ==> #[trigger] final(self).buffers@[o] == old(self).buffers@[o],
            final(self).trackers.states@ == old(self).trackers.states@.insert(
                id,
                crate::track::USE_EMPTY,
            ),
            final(self).submission_index == old(self).submission_index,
            final(self).textures == old(self).textures,
            final(self).command_buffers == old(self).command_buffers,
            final(self).swap_chains == old(self).swap_chains,
            final(self).pending_writes == old(self).pending_writes,
            final(self).life_tracker == old(self).life_tracker,
    {
        let mut contents: Vec<u8> = Vec::new();
        let mut i: usize = 0;
        while i < size
            invariant
                i <= size,
                contents@ == Seq::new(i as nat, |k: int| 0u8),
            decreases size - i,
        {
            contents.push(0u8);
            proof {
                assert(contents@ =~= Seq::new(i as nat + 1, |k: int| 0u8));
            }
            i = i + 1;
        }
        let buffer = Buffer {
            usage,
            map_state: MapState::Idle,
            life_guard: crate::life::LifeGuard::new(),
            contents,
        };
        self.buffers.insert(id, buffer);
        self.trackers.start_tracking(id, crate::track::USE_EMPTY);
        proof {
            assert(final(self).buffers@.dom() =~= old(self).buffers@.dom().insert(id));
            assert(final(self).trackers.states@.dom() =~= final(self).buffers@.dom());
        }
    }

    /// Creates a texture under the free handle `id` with one external
    /// reference.
    pub fn create_texture(&mut self, id: u64)
        requires
            old(self).wf(),
            !old(self).textures@.contains_key(id),
        ensures
            final(self).wf(),
            final(self).textures@ == old(self).textures@.insert(
                id,
                (Texture { life_guard: crate::life::LifeGuard { ref_count: 1, last_use: 0 } }),
            ),
            final(self).buffers == old(self).buffers,
            final(self).trackers == old(self).trackers,
            final(self).command_buffers == old(self).command_buffers,
            final(self).swap_chains == old(self).swap_chains,
            final(self).pending_writes == old(self).pending_writes,
            final(self).life_tracker == old(self).life_tracker,
            final(self).submission_index == old(self).submission_index,
    {
        self.textures.insert(id, Texture { life_guard: crate::life::LifeGuard::new() });
    }

    /// Registers a presentable surface under the free handle `id`.
    pub fn create_swap_chain(&mut self, id: u64, acquired_view: bool)
        requires
            old(self).wf(),
            !old(self).swap_chains@.contains_key(id),
        ensures
            final(self).wf(),
            final(self).swap_chains@ == old(self).swap_chains@.insert(
                id,
                (SwapChain { acquired_view, acquired_framebuffers: 0 }),
            ),
            final(self).buffers == old(self).buffers,
            final(self).textures == old(self).textures,
            final(self).trackers == old(self).trackers,
            final(self).command_buffers == old(self).command_buffers,
            final(self).pending_writes == old(self).pending_writes,
            final(self).life_tracker == old(self).life_tracker,
            final(self).submission_index == old(self).submission_index,
    {
        self.swap_chains.insert(id, SwapChain { acquired_view, acquired_framebuffers: 0 });
    }

    /// Registers a recorded command buffer under the free handle `id`.
    pub fn register_command_buffer(&mut self, id: u64, cmb: CommandBuffer)
        requires
            old(self).wf(),
            !old(self).command_buffers@.contains_key(id),
        ensures
            final(self).wf(),
            final(self).command_buffers@ == old(self).command_buffers@.insert(id, cmb),
            final(self).buffers == old(self).buffers,
            final(self).textures == old(self).textures,
            final(self).trackers == old(self).trackers,
            final(self).swap_chains == old(self).swap_chains,
            final(self).pending_writes == old(self).pending_writes,
            final(self).life_tracker == old(self).life_tracker,
            final(self).submission_index == old(self).submission_index,
    {
        self.command_buffers.insert(id, cmb);
    }

    /// Drops one external reference on a buffer. The buffer stays alive
    /// while in-flight submissions need it; once unreferenced and reaped it
    /// is finalized by the maintenance pass.
    pub fn drop_buffer(&mut self, id: u64)
        requires
            old(self).wf(),
            old(self).buffers@.contains_key(id),
            old(self).buffers@[id].life_guard.ref_count > 0,
        ensures
            final(self).wf(),
            final(self).buffers@.dom() == old(self).buffers@.dom(),
            final(self).buffers@[id].life_guard.ref_count == old(self).buffers@[id].life_guard.ref_count - 1,
            final(self).buffers@[id].life_guard.last_use == old(self).buffers@[id].life_guard.last_use,
            final(self).buffers@[id].usage == old(self).buffers@[id].usage,
            final(self).buffers@[id].map_state == old(self).buffers@[id].map_state,
            final(self).buffers@[id].contents == old(self).buffers@[id].contents,
            forall|o: u64|
                o != id ==> #[trigger] final(self).buffers@[o] == old(self).buffers@[o],
            final(self).textures == old(self).textures,
            final(self).trackers == old(self).trackers,
            final(self).command_buffers == old(self).command_buffers,
            final(self).swap_chains == old(self).swap_chains,
            final(self).pending_writes == old(self).pending_writes,
            final(self).life_tracker == old(self).life_tracker,
            final(self).submission_index == old(self).submission_index,
    {
        let b = self.buffers.get_mut(id);
        b.life_guard.ref_count = b.life_guard.ref_count - 1;
    }

    /// Requests a host mapping of the buffer. The mapping callback fires —
    /// and the mapping becomes active — once every submission using the
    /// buffer has completed and been reaped.
    pub fn request_mapping(&mut self, id: u64)
        requires
            old(self).wf(),
            old(self).buffers@.contains_key(id),
            old(self).buffers@[id].map_state is Idle,
        ensures
            final(self).wf(),
            final(self).buffers@.dom() == old(self).buffers@.dom(),
            final(self).buffers@[id].map_state is Waiting,
            final(self).buffers@[id].usage == old(self).buffers@[id].usage,
            final(self).buffers@[id].life_guard == old(self).buffers@[id].life_guard,
            final(self).buffers@[id].contents == old(self).buffers@[id].contents,
            forall|o: u64|
                o != id ==> #[trigger] final(self).buffers@[o] == old(self).buffers@[o],
            final(self).textures == old(self).textures,
            final(self).trackers == old(self).trackers,
            final(self).command_buffers == old(self).command_buffers,
            final(self).swap_chains == old(self).swap_chains,
            final(self).pending_writes == old(self).pending_writes,
            final(self).life_tracker == old(self).life_tracker,
            final(self).submission_index == old(self).submission_index,
    {
        let b = self.buffers.get_mut(id);
        b.map_state = MapState::Waiting;
    }

    /// Index of the oldest submission record whose fence is not signaled.
    pub open spec fn first_unsignaled(self) -> int {
        first_unsignaled_in(self.life_tracker.records@)
    }

    /// Hardware progress: the oldest incomplete submission runs its
    /// commands against the buffer contents and its fence signals. The
    /// hardware queue is FIFO, so completion happens in submission order.
    /// Returns whether any submission was still incomplete.
    pub fn complete_oldest(&mut self) -> (progressed: bool)
        requires
            old(self).wf(),
        ensures
            final(self).wf(),
            hw_step(*old(self), *final(self), progressed),
    {
        let ghost q = first_unsignaled_in(self.life_tracker.records@);
        let mut i: usize = 0;
        while i < self.life_tracker.records.len() && self.life_tracker.records[i].fence_signaled
            invariant
                i <= self.life_tracker.records@.len(),
                forall|k: int|
                    0 <= k < i ==> (#[trigger] self.life_tracker.records@[k]).fence_signaled,
            decreases self.life_tracker.records@.len() - i,
        {
            i = i + 1;
        }
        proof {
            lemma_first_unsignaled_in(self.life_tracker.records@, i as int);
        }
        if i == self.life_tracker.records.len() {
            return false;
        }
        let rec = &self.life_tracker.records[i];
        execute_commands(&mut self.buffers, &rec.commands, &rec.temp_buffers);
        let r = &mut self.life_tracker.records[i];
        r.fence_signaled = true;
        proof {
            assert(final(self).life_tracker.records@ =~= old(self).life_tracker.records@.update(
                q,
                *final(r),
            ));
            assert(final(self).trackers.states@.dom() =~= final(self).buffers@.dom());
        }
        true
    }
}

/// Index of the first record whose fence is not signaled, or the length if
/// all are.
pub open spec fn first_unsignaled_in(s: Seq<SubmissionRecord>) -> int
    decreases s.len(),
{
    if s.len() == 0 {
        0
    } else if s.first().fence_signaled {
        1 + first_unsignaled_in(s.drop_first())
    } else {
        0
    }
}

pub proof fn lemma_first_unsignaled_in(s: Seq<SubmissionRecord>, i: int)
    requires
        0 <= i <= s.len(),
        forall|k: int| 0 <= k < i ==> (#[trigger] s[k]).fence_signaled,
        i < s.len() ==> !s[i].fence_signaled,
    ensures
        first_unsignaled_in(s) == i,
    decreases s.len(),
{
    if s.len() > 0 {
        assert(s[0] == s.first());
        if i > 0 {
            assert forall|k: int| 0 <= k < i - 1 implies (#[trigger] s.drop_first()[k]).fence_signaled by {
                assert(s.drop_first()[k] == s[k + 1]);
            }
            if i - 1 < s.drop_first().len() {
                assert(s.drop_first()[i - 1] == s[i]);
            }
            lemma_first_unsignaled_in(s.drop_first(), i - 1);
        }
    }
}

/// The hardware-completion transition: either everything in flight had
/// already completed and nothing changes, or the oldest incomplete record
/// signals its fence after its commands ran against the buffer contents.
pub open spec fn hw_step(pre: Device, post: Device, progressed: bool) -> bool {
    let records = pre.life_tracker.records@;
    let q = first_unsignaled_in(records);
    if q == records.len() {
        &&& !progressed
        &&& post == pre
    } else {
        &&& progressed
        &&& post.life_tracker.records@.len() == records.len()
        &&& (forall|k: int|
            0 <= k < records.len() && k != q ==> post.life_tracker.records@[k] == records[k])
        &&& post.life_tracker.records@[q].fence_signaled
        &&& post.life_tracker.records@[q].index == records[q].index
        &&& post.life_tracker.records@[q].commands == records[q].commands
        &&& post.life_tracker.records@[q].signal_swap_chains == records[q].signal_swap_chains
        &&& post.life_tracker.records@[q].suspected_buffers == records[q].suspected_buffers
        &&& post.life_tracker.records@[q].suspected_textures == records[q].suspected_textures
        &&& post.life_tracker.records@[q].temp_buffers == records[q].temp_buffers
        &&& post.buffers@.dom() == pre.buffers@.dom()
        &&& contents_of(post.buffers@) == apply_commands(
            contents_of(pre.buffers@),
            records[q].commands@,
            temps_bytes(records[q].temp_buffers@),
        )
        &&& (forall|id: u64|
            #[trigger] post.buffers@.contains_key(id) ==> post.buffers@[id].usage
                == pre.buffers@[id].usage && post.buffers@[id].map_state
                == pre.buffers@[id].map_state && post.buffers@[id].life_guard
                == pre.buffers@[id].life_guard)
        &&& post.submission_index == pre.submission_index
        &&& post.textures == pre.textures
        &&& post.command_buffers == pre.command_buffers
        &&& post.swap_chains == pre.swap_chains
        &&& post.trackers == pre.trackers
        &&& post.pending_writes == pre.pending_writes
    }
}

/// A generic fact about sequence membership after a push.
pub proof fn lemma_contains_push<T>(s: Seq<T>, x: T, y: T)
    ensures
        s.push(x).contains(y) == (s.contains(y) || x == y),
{
    if s.contains(y) {
        let i = choose|i: int| 0 <= i < s.len() && s[i] == y;
        assert(s.push(x)[i] == y);
    }
    if x == y {
        assert(s.push(x)[s.len() as int] == y);
    }
    if s.push(x).contains(y) {
        let i = choose|i: int| 0 <= i < s.push(x).len() && s.push(x)[i] == y;
        if i < s.len() {
            assert(s[i] == y);
        }
    }
}

impl Device {
    /// Finalizes one reaped submission record: destroys its suspected
    /// resources whose reference count is still zero and whose last use is
    /// no later than this record, then collects the mapping callbacks this
    /// record releases, marking their buffers actively mapped.
    fn process_record(&mut self, rec: &SubmissionRecord, out: &mut MaintainResult)
        requires
            old(self).buffers.wf(),
            old(self).textures.wf(),
            old(self).trackers.wf(),
            old(self).trackers.states@.dom() == old(self).buffers@.dom(),
        ensures
            process_record_rel(*old(self), *final(self), *old(out), *final(out), *rec),
    {
        let ghost bufs0 = self.buffers@;
        let ghost texs0 = self.textures@;
        let ghost states0 = self.trackers.states@;
        let ghost db0 = out.destroyed_buffers@;
        let ghost dt0 = out.destroyed_textures@;
        let ghost fs0 = out.freed_staging@;
        let ghost cbs0 = out.callbacks@;

        let mut i: usize = 0;
        while i < rec.suspected_buffers.len()
            invariant
                self.buffers.wf(),
                self.trackers.wf(),
                self.trackers.states@.dom() == self.buffers@.dom(),
                self.textures.wf(),
                self.textures@ == texs0,
                out.destroyed_textures@ == dt0,
                out.freed_staging@ == fs0,
                out.callbacks@ == cbs0,
                self.command_buffers == old(self).command_buffers,
                self.swap_chains == old(self).swap_chains,
                self.pending_writes == old(self).pending_writes,
                self.life_tracker == old(self).life_tracker,
                self.submission_index == old(self).submission_index,
                forall|id: u64|
                    #[trigger] self.buffers@.contains_key(id) ==> bufs0.contains_key(id)
                        && self.buffers@[id] == bufs0[id],
                forall|id: u64|
                    (#[trigger] bufs0.contains_key(id)) && !self.buffers@.contains_key(id)
                        ==> bufs0[id].life_guard.ref_count == 0 && rec.suspected_buffers@.contains(
                        id,
                    ) && bufs0[id].life_guard.last_use <= rec.index,
                forall|id: u64|
                    #[trigger] out.destroyed_buffers@.contains(id) == (db0.contains(id) || (
                    bufs0.contains_key(id) && !self.buffers@.contains_key(id))),
                forall|id: u64|
                    #[trigger] self.buffers@.contains_key(id) ==> self.trackers.states@[id]
                        == states0[id],
            decreases rec.suspected_buffers@.len() - i,
        {
            let id = rec.suspected_buffers[i];
            let mut destroy = false;
            match self.buffers.get(id) {
                Some(b) => {
                    if b.life_guard.ref_count == 0 && b.life_guard.last_use <= rec.index {
                        destroy = true;
                    }
                },
                None => {},
            }
            if destroy {
                let ghost d_old = out.destroyed_buffers@;
                self.buffers.remove(id);
                self.trackers.untrack(id);
                out.destroyed_buffers.push(id);
                proof {
                    assert(rec.suspected_buffers@.contains(id)) by {
                        assert(rec.suspected_buffers@[i as int] == id);
                    }
                    assert forall|o: u64|
                        #[trigger] out.destroyed_buffers@.contains(o) == (db0.contains(o) || (
                        bufs0.contains_key(o) && !self.buffers@.contains_key(o))) by {
                        lemma_contains_push(d_old, id, o);
                    }
                    assert(self.trackers.states@.dom() =~= self.buffers@.dom());
                }
            }
            i = i + 1;
        }

        let mut j: usize = 0;
        while j < rec.suspected_textures.len()
            invariant
                self.textures.wf(),
                self.buffers.wf(),
                out.freed_staging@ == fs0,
                out.callbacks@ == cbs0,
                self.command_buffers == old(self).command_buffers,
                self.swap_chains == old(self).swap_chains,
                self.pending_writes == old(self).pending_writes,
                self.life_tracker == old(self).life_tracker,
                self.submission_index == old(self).submission_index,
                self.trackers.wf(),
                self.trackers.states@.dom() == self.buffers@.dom(),
                forall|id: u64|
                    #[trigger] self.buffers@.contains_key(id) ==> bufs0.contains_key(id)
                        && self.buffers@[id] == bufs0[id],
                forall|id: u64|
                    (#[trigger] bufs0.contains_key(id)) && !self.buffers@.contains_key(id)
                        ==> bufs0[id].life_guard.ref_count == 0 && rec.suspected_buffers@.contains(
                        id,
                    ) && bufs0[id].life_guard.last_use <= rec.index,
                forall|id: u64|
                    #[trigger] out.destroyed_buffers@.contains(id) == (db0.contains(id) || (
                    bufs0.contains_key(id) && !self.buffers@.contains_key(id))),
                forall|id: u64|
                    #[trigger] self.buffers@.contains_key(id) ==> self.trackers.states@[id]
                        == states0[id],
                forall|id: u64|
                    #[trigger] self.textures@.contains_key(id) ==> texs0.contains_key(id)
                        && self.textures@[id] == texs0[id],
                forall|id: u64|
                    (#[trigger] texs0.contains_key(id)) && !self.textures@.contains_key(id)
                        ==> texs0[id].life_guard.ref_count == 0 && rec.suspected_textures@.contains(
                        id,
                    ) && texs0[id].life_guard.last_use <= rec.index,
                forall|id: u64|
                    #[trigger] out.destroyed_textures@.contains(id) == (dt0.contains(id) || (
                    texs0.contains_key(id) && !self.textures@.contains_key(id))),
            decreases rec.suspected_textures@.len() - j,
        {
            let id = rec.suspected_textures[j];
            let mut destroy = false;
            match self.textures.get(id) {
                Some(t) => {
                    if t.life_guard.ref_count == 0 && t.life_guard.last_use <= rec.index {
                        destroy = true;
                    }
                },
                None => {},
            }
            if destroy {
                let ghost d_old = out.destroyed_textures@;
                self.textures.remove(id);
                out.destroyed_textures.push(id);
                proof {
                    assert(rec.suspected_textures@.contains(id)) by {
                        assert(rec.suspected_textures@[j as int] == id);
                    }
                    assert forall|o: u64|
                        #[trigger] out.destroyed_textures@.contains(o) == (dt0.contains(o) || (
                        texs0.contains_key(o) && !self.textures@.contains_key(o))) by {
                        lemma_contains_push(d_old, id, o);
                    }
                }
            }
            j = j + 1;
        }

        let ghost dev1 = *self;
        let ghost bufs1 = self.buffers@;
        let ghost db1 = out.destroyed_buffers@;
        let ghost dt1 = out.destroyed_textures@;
        let ghost fs1 = out.freed_staging@;
        let ghost cb0 = out.callbacks@;
        let keys = self.buffers.keys();
        let mut k: usize = 0;
        while k < keys.len()
            invariant
                k <= keys@.len(),
                self.buffers.wf(),
                self.buffers@.dom() == bufs1.dom(),
                self.textures == dev1.textures,
                self.trackers == dev1.trackers,
                self.command_buffers == dev1.command_buffers,
                self.swap_chains == dev1.swap_chains,
                self.pending_writes == dev1.pending_writes,
                self.life_tracker == dev1.life_tracker,
                self.submission_index == dev1.submission_index,
                out.destroyed_buffers@ == db1,
                out.destroyed_textures@ == dt1,
                out.freed_staging@ == fs1,
                forall|n: int| 0 <= n < keys@.len() ==> #[trigger] bufs1.contains_key(keys@[n]),
                forall|id: u64| bufs1.contains_key(id) ==> keys@.contains(id),
                forall|n: int, m: int| 0 <= n < m < keys@.len() ==> keys@[n] != keys@[m],
                forall|id: u64|
                    #[trigger] self.buffers@.contains_key(id) ==> self.buffers@[id].usage
                        == bufs1[id].usage && self.buffers@[id].contents == bufs1[id].contents
                        && self.buffers@[id].life_guard == bufs1[id].life_guard,
                forall|n: int|
                    0 <= n < k ==> self.buffers@[#[trigger] keys@[n]].map_state == (
                    if bufs1[keys@[n]].map_state is Waiting && bufs1[keys@[n]].life_guard.last_use
                        <= rec.index {
                        MapState::Active
                    } else {
                        bufs1[keys@[n]].map_state
                    }),
                forall|n: int|
                    k <= n < keys@.len() ==> self.buffers@[#[trigger] keys@[n]].map_state
                        == bufs1[keys@[n]].map_state,
                forall|id: u64|
                    #[trigger] out.callbacks@.contains(id) == (cb0.contains(id) || (exists|n: int|
                        0 <= n < k && #[trigger] keys@[n] == id
                            && bufs1[id].map_state is Waiting
                            && bufs1[id].life_guard.last_use <= rec.index)),
            decreases keys@.len() - k,
        {
            let id = keys[k];
            let ghost c_old = out.callbacks@;
            let ghost pre_it = self.buffers@;
            proof {
                assert(bufs1.contains_key(id)) by {
                    assert(keys@[k as int] == id);
                }
                assert(pre_it[id].map_state == bufs1[id].map_state) by {
                    assert(keys@[k as int] == id);
                }
            }
            let b = self.buffers.get_mut(id);
            let waiting = match b.map_state {
                MapState::Waiting => true,
                _ => false,
            };
            let fires = waiting && b.life_guard.last_use <= rec.index;
            if fires {
                b.map_state = MapState::Active;
                out.callbacks.push(id);
            }
            proof {
                let fs = bufs1[id].map_state is Waiting && bufs1[id].life_guard.last_use
                    <= rec.index;
                assert(pre_it[id].life_guard == bufs1[id].life_guard);
                assert(fires == fs);
                if !fires {
                    assert(self.buffers@ =~= pre_it);
                    assert(out.callbacks@ == c_old);
                }
                assert forall|o: u64|
                    #[trigger] out.callbacks@.contains(o) == (cb0.contains(o) || (exists|n: int|
                        0 <= n < k + 1 && #[trigger] keys@[n] == o
                            && bufs1[o].map_state is Waiting
                            && bufs1[o].life_guard.last_use <= rec.index)) by {
                    assert(c_old.contains(o) == (cb0.contains(o) || (exists|n: int|
                        0 <= n < k && #[trigger] keys@[n] == o
                            && bufs1[o].map_state is Waiting
                            && bufs1[o].life_guard.last_use <= rec.index)));
                    if fires {
                        lemma_contains_push(c_old, id, o);
                        assert(out.callbacks@.contains(o) == (c_old.contains(o) || id == o));
                    } else {
                        assert(out.callbacks@.contains(o) == c_old.contains(o));
                    }
                    if out.callbacks@.contains(o) && !c_old.contains(o) {
                        assert(fires && id == o);
                        assert(keys@[k as int] == o);
                    }
                    if exists|n: int|
                        0 <= n < k + 1 && #[trigger] keys@[n] == o
                            && bufs1[o].map_state is Waiting
                            && bufs1[o].life_guard.last_use <= rec.index {
                        let n = choose|n: int|
                            0 <= n < k + 1 && #[trigger] keys@[n] == o
                                && bufs1[o].map_state is Waiting
                                && bufs1[o].life_guard.last_use <= rec.index;
                        if n == k {
                            assert(o == id);
                            assert(fires);
                            assert(out.callbacks@.contains(o));
                        } else {
                            assert(c_old.contains(o));
                            assert(out.callbacks@.contains(o));
                        }
                    }
                }
                assert forall|n: int|
                    0 <= n < k + 1 implies self.buffers@[#[trigger] keys@[n]].map_state == (
                    if bufs1[keys@[n]].map_state is Waiting && bufs1[keys@[n]].life_guard.last_use
                        <= rec.index {
                        MapState::Active
                    } else {
                        bufs1[keys@[n]].map_state
                    }) by {
                    if n < k {
                        assert(keys@[n] != id);
                        assert(self.buffers@[keys@[n]] == pre_it[keys@[n]]);
                    }
                }
                assert forall|n: int|
                    k + 1 <= n < keys@.len() implies self.buffers@[#[trigger] keys@[n]].map_state
                        == bufs1[keys@[n]].map_state by {
                    assert(keys@[n] != id);
                    assert(self.buffers@[keys@[n]] == pre_it[keys@[n]]);
                }
            }
            k = k + 1;
        }
        proof {
            assert forall|id: u64|
                #[trigger] final(out).callbacks@.contains(id) == (cb0.contains(id) || (final(self).buffers@.contains_key(id) && bufs1.contains_key(id)
                    && bufs1[id].map_state is Waiting && bufs1[id].life_guard.last_use
                    <= rec.index)) by {
                if bufs1.contains_key(id) {
                    assert(keys@.contains(id));
                    let n = choose|n: int| 0 <= n < keys@.len() && keys@[n] == id;
                    assert(keys@[n] == id);
                }
                if final(out).callbacks@.contains(id) && !cb0.contains(id) {
                    let n = choose|n: int|
                        0 <= n < keys@.len() && #[trigger] keys@[n] == id
                            && bufs1[id].map_state is Waiting
                            && bufs1[id].life_guard.last_use <= rec.index;
                    assert(bufs1.contains_key(keys@[n]));
                }
            }
            assert forall|id: u64|
                #[trigger] final(self).buffers@.contains_key(id) && bufs1[id].map_state is Waiting
                    && bufs1[id].life_guard.last_use <= rec.index implies final(self).buffers@[id].map_state is Active by {
                assert(keys@.contains(id));
                let n = choose|n: int| 0 <= n < keys@.len() && keys@[n] == id;
                assert(keys@[n] == id);
            }
            assert forall|id: u64|
                #[trigger] final(out).callbacks@.contains(id) == (cbs0.contains(id) || (final(self).buffers@.contains_key(id) && bufs0[id].map_state is Waiting
                    && bufs0[id].life_guard.last_use <= rec.index)) by {
                if final(self).buffers@.contains_key(id) {
                    assert(bufs1.contains_key(id));
                    assert(bufs1[id] == bufs0[id]);
                }
            }
        }
    }
}

/// Effect of finalizing the reaped records `recs` on a device: staging
/// memory of exactly those records is freed, a resource is destroyed only
/// if it was suspected in one of them, still unreferenced, and last used no
/// later than that record, and a mapping callback is collected exactly for
/// the buffers whose pending mapping one of those records releases.
pub open spec fn reaped_effect(
    pre: Device,
    cur: Device,
    out: MaintainResult,
    recs: Seq<SubmissionRecord>,
) -> bool {
    &&& cur.buffers.wf()
    &&& cur.textures.wf()
    &&& cur.trackers.wf()
    &&& cur.trackers.states@.dom() == cur.buffers@.dom()
    &&& out.freed_staging@ == concat_temps(recs)
    &&& (forall|id: u64|
        #[trigger] cur.buffers@.contains_key(id) ==> pre.buffers@.contains_key(id)
            && cur.buffers@[id].usage == pre.buffers@[id].usage && cur.buffers@[id].contents
            == pre.buffers@[id].contents && cur.buffers@[id].life_guard
            == pre.buffers@[id].life_guard && (cur.buffers@[id].map_state
            == pre.buffers@[id].map_state || (pre.buffers@[id].map_state is Waiting
            && cur.buffers@[id].map_state is Active && exists|k: int|
            0 <= k < recs.len() && pre.buffers@[id].life_guard.last_use <= (
            #[trigger] recs[k]).index)))
    &&& (forall|id: u64|
        (#[trigger] pre.buffers@.contains_key(id)) && !cur.buffers@.contains_key(id)
            ==> pre.buffers@[id].life_guard.ref_count == 0 && exists|k: int|
            0 <= k < recs.len() && (#[trigger] recs[k]).suspected_buffers@.contains(id)
                && pre.buffers@[id].life_guard.last_use <= recs[k].index)
    &&& (forall|id: u64|
        #[trigger] out.destroyed_buffers@.contains(id) == (pre.buffers@.contains_key(id)
            && !cur.buffers@.contains_key(id)))
    &&& (forall|id: u64|
        #[trigger] out.callbacks@.contains(id) ==> pre.buffers@.contains_key(id)
            && pre.buffers@[id].map_state is Waiting && exists|k: int|
            0 <= k < recs.len() && pre.buffers@[id].life_guard.last_use <= (
            #[trigger] recs[k]).index)
    &&& (forall|id: u64|
        #[trigger] cur.buffers@.contains_key(id) && pre.buffers@[id].map_state is Waiting && (
        exists|k: int|
            0 <= k < recs.len() && pre.buffers@[id].life_guard.last_use <= (
            #[trigger] recs[k]).index) ==> out.callbacks@.contains(id)
            && cur.buffers@[id].map_state is Active)
    &&& (forall|id: u64|
        #[trigger] cur.buffers@.contains_key(id) ==> cur.trackers.states@[id]
            == pre.trackers.states@[id])
    &&& (forall|id: u64|
        #[trigger] cur.textures@.contains_key(id) ==> pre.textures@.contains_key(id)
            && cur.textures@[id] == pre.textures@[id])
    &&& (forall|id: u64|
        (#[trigger] pre.textures@.contains_key(id)) && !cur.textures@.contains_key(id)
            ==> pre.textures@[id].life_guard.ref_count == 0 && exists|k: int|
            0 <= k < recs.len() && (#[trigger] recs[k]).suspected_textures@.contains(id)
                && pre.textures@[id].life_guard.last_use <= recs[k].index)
    &&& (forall|id: u64|
        #[trigger] out.destroyed_textures@.contains(id) == (pre.textures@.contains_key(id)
            && !cur.textures@.contains_key(id)))
    &&& cur.submission_index == pre.submission_index
    &&& cur.pending_writes == pre.pending_writes
    &&& cur.command_buffers == pre.command_buffers
    &&& cur.swap_chains == pre.swap_chains
}

/// One maintenance poll: the longest signaled prefix of the submission
/// queue, `p` records long, is reaped in order and finalized.
pub open spec fn reap_step_at(pre: Device, post: Device, out: MaintainResult, p: int) -> bool {
    let records = pre.life_tracker.records@;
    &&& 0 <= p <= records.len()
    &&& (forall|i: int| 0 <= i < p ==> (#[trigger] records[i]).fence_signaled)
    &&& (p < records.len() ==> !records[p].fence_signaled)
    &&& post.life_tracker.records@ == records.skip(p)
    &&& reaped_effect(pre, post, out, records.take(p))
}

/// One maintenance poll, for some prefix length.
pub open spec fn reap_step(pre: Device, post: Device, out: MaintainResult) -> bool {
    exists|p: int| reap_step_at(pre, post, out, p)
}

/// Hardware progress made before a waiting maintenance pass: none for a
/// poll, one completed submission (if any was incomplete) for a wait.
pub open spec fn hw_maybe(pre: Device, wait: bool, mid: Device) -> bool {
    if wait {
        exists|progressed: bool| hw_step(pre, mid, progressed)
    } else {
        mid == pre
    }
}

impl Device {
    /// The non-blocking maintenance pass: reaps every completed submission
    /// at the head of the queue, in submission order, and finalizes each.
    pub fn reap_completed(&mut self) -> (out: MaintainResult)
        requires
            old(self).wf(),
        ensures
            final(self).wf(),
            reap_step_at(*old(self), *final(self), out, old(self).life_tracker.records@.len() - final(self).life_tracker.records@.len()),
            reap_step(*old(self), *final(self), out),
    {
        let ghost pre0 = *self;
        let mut reaped = self.life_tracker.reap_signaled();
        let ghost reaped0 = reaped@;
        let ghost p = reaped@.len() as int;
        let ghost mid0 = *self;
        let mut out = MaintainResult {
            freed_staging: Vec::new(),
            destroyed_buffers: Vec::new(),
            destroyed_textures: Vec::new(),
            callbacks: Vec::new(),
        };
        proof {
            assert(concat_temps(reaped0.take(0)) =~= Seq::<StagingBuffer>::empty());
            assert(reaped_effect(pre0, *self, out, reaped0.take(0)));
        }
        let mut i: usize = 0;
        while i < reaped.len()
            invariant
                i <= reaped@.len(),
                reaped@.len() == reaped0.len(),
                forall|k: int| i <= k < reaped0.len() ==> reaped@[k] == reaped0[k],
                self.life_tracker == mid0.life_tracker,
                reaped_effect(pre0, *self, out, reaped0.take(i as int)),
            decreases reaped@.len() - i,
        {
            let ghost mid = *self;
            let ghost out_mid = out;
            let mut temps: Vec<StagingBuffer> = Vec::new();
            let r = &mut reaped[i];
            core::mem::swap(&mut temps, &mut r.temp_buffers);
            out.freed_staging.append(&mut temps);
            proof {
                assert(reaped@[i as int].index == reaped0[i as int].index);
                assert(reaped@[i as int].suspected_buffers == reaped0[i as int].suspected_buffers);
                assert(reaped@[i as int].suspected_textures == reaped0[i as int].suspected_textures);
                assert(reaped0.take(i as int + 1).drop_last() =~= reaped0.take(i as int));
                assert(reaped0.take(i as int + 1).last() == reaped0[i as int]);
                assert(out.freed_staging@ == concat_temps(reaped0.take(i as int + 1)));
            }
            let rec2 = &reaped[i];
            self.process_record(rec2, &mut out);
            proof {
                let recs1 = reaped0.take(i as int + 1);
                let rec = reaped@[i as int];
                assert(rec.index == reaped0[i as int].index);
                assert forall|id: u64|
                    #[trigger] self.buffers@.contains_key(id) implies pre0.buffers@.contains_key(id)
                        && self.buffers@[id].usage == pre0.buffers@[id].usage
                        && self.buffers@[id].contents == pre0.buffers@[id].contents
                        && self.buffers@[id].life_guard == pre0.buffers@[id].life_guard
                        && (self.buffers@[id].map_state == pre0.buffers@[id].map_state || (
                        pre0.buffers@[id].map_state is Waiting
                            && self.buffers@[id].map_state is Active && exists|k: int|
                            0 <= k < recs1.len() && pre0.buffers@[id].life_guard.last_use <= (
                            #[trigger] recs1[k]).index)) by {
                    assert(mid.buffers@.contains_key(id));
                    if self.buffers@[id].map_state != pre0.buffers@[id].map_state {
                        if mid.buffers@[id].map_state == pre0.buffers@[id].map_state {
                            let k = i as int;
                            assert(recs1[k] == reaped0[i as int]);
                            assert(pre0.buffers@[id].life_guard.last_use <= recs1[k].index);
                        } else {
                            let k = choose|k: int|
                                0 <= k < reaped0.take(i as int).len()
                                    && pre0.buffers@[id].life_guard.last_use <= (
                                #[trigger] reaped0.take(i as int)[k]).index;
                            assert(recs1[k] == reaped0.take(i as int)[k]);
                        }
                    }
                }
                assert forall|id: u64|
                    (#[trigger] pre0.buffers@.contains_key(id)) && !self.buffers@.contains_key(id) implies
                    pre0.buffers@[id].life_guard.ref_count == 0 && exists|k: int|
                        0 <= k < recs1.len() && (#[trigger] recs1[k]).suspected_buffers@.contains(
                            id,
                        ) && pre0.buffers@[id].life_guard.last_use <= recs1[k].index by {
                    if mid.buffers@.contains_key(id) {
                        let k = i as int;
                        assert(recs1[k] == reaped0[i as int]);
                        assert(rec.suspected_buffers@.contains(id));
                        assert(recs1[k].suspected_buffers@.contains(id));
                        assert(pre0.buffers@[id].life_guard.last_use <= recs1[k].index);
                    } else {
                        let k = choose|k: int|
                            0 <= k < reaped0.take(i as int).len() && (#[trigger] reaped0.take(
                                i as int,
                            )[k]).suspected_buffers@.contains(id)
                                && pre0.buffers@[id].life_guard.last_use <= reaped0.take(
                                i as int,
                            )[k].index;
                        assert(recs1[k] == reaped0.take(i as int)[k]);
                    }
                }
                assert forall|id: u64|
                    #[trigger] out.callbacks@.contains(id) implies pre0.buffers@.contains_key(id)
                        && pre0.buffers@[id].map_state is Waiting && exists|k: int|
                        0 <= k < recs1.len() && pre0.buffers@[id].life_guard.last_use <= (
                        #[trigger] recs1[k]).index by {
                    if out_mid.callbacks@.contains(id) {
                        let k = choose|k: int|
                            0 <= k < reaped0.take(i as int).len()
                                && pre0.buffers@[id].life_guard.last_use <= (
                            #[trigger] reaped0.take(i as int)[k]).index;
                        assert(recs1[k] == reaped0.take(i as int)[k]);
                    } else {
                        assert(self.buffers@.contains_key(id));
                        assert(mid.buffers@.contains_key(id));
                        assert(mid.buffers@[id].map_state is Waiting);
                        assert(mid.buffers@[id].map_state == pre0.buffers@[id].map_state);
                        let k = i as int;
                        assert(recs1[k] == reaped0[i as int]);
                        assert(pre0.buffers@[id].life_guard.last_use <= recs1[k].index);
                    }
                }
                assert forall|id: u64|
                    #[trigger] self.buffers@.contains_key(id)
                        && pre0.buffers@[id].map_state is Waiting && (exists|k: int|
                        0 <= k < recs1.len() && pre0.buffers@[id].life_guard.last_use <= (
                        #[trigger] recs1[k]).index) implies out.callbacks@.contains(id)
                        && self.buffers@[id].map_state is Active by {
                    assert(mid.buffers@.contains_key(id));
                    let k = choose|k: int|
                        0 <= k < recs1.len() && pre0.buffers@[id].life_guard.last_use <= (
                        #[trigger] recs1[k]).index;
                    if k < i as int {
                        assert(reaped0.take(i as int)[k] == recs1[k]);
                        assert(out_mid.callbacks@.contains(id));
                        assert(mid.buffers@[id].map_state is Active);
                        assert(out.callbacks@.contains(id));
                        assert(self.buffers@[id].map_state == mid.buffers@[id].map_state);
                    } else {
                        assert(recs1[k] == reaped0[i as int]);
                        if mid.buffers@[id].map_state is Active {
                            let k2 = choose|k2: int|
                                0 <= k2 < reaped0.take(i as int).len()
                                    && pre0.buffers@[id].life_guard.last_use <= (
                                #[trigger] reaped0.take(i as int)[k2]).index;
                            assert(out_mid.callbacks@.contains(id));
                            assert(out.callbacks@.contains(id));
                            assert(self.buffers@[id].map_state == mid.buffers@[id].map_state);
                        } else {
                            assert(mid.buffers@[id].map_state is Waiting);
                            assert(mid.buffers@[id].life_guard.last_use
                                == pre0.buffers@[id].life_guard.last_use);
                            assert(out.callbacks@.contains(id));
                            assert(self.buffers@[id].map_state is Active);
                        }
                    }
                }
                assert forall|id: u64|
                    (#[trigger] pre0.textures@.contains_key(id)) && !self.textures@.contains_key(
                        id,
                    ) implies pre0.textures@[id].life_guard.ref_count == 0 && exists|k: int|
                        0 <= k < recs1.len() && (#[trigger] recs1[k]).suspected_textures@.contains(
                            id,
                        ) && pre0.textures@[id].life_guard.last_use <= recs1[k].index by {
                    if mid.textures@.contains_key(id) {
                        let k = i as int;
                        assert(recs1[k] == reaped0[i as int]);
                        assert(rec.suspected_textures@.contains(id));
                        assert(recs1[k].suspected_textures@.contains(id));
                    } else {
                        let k = choose|k: int|
                            0 <= k < reaped0.take(i as int).len() && (#[trigger] reaped0.take(
                                i as int,
                            )[k]).suspected_textures@.contains(id)
                                && pre0.textures@[id].life_guard.last_use <= reaped0.take(
                                i as int,
                            )[k].index;
                        assert(recs1[k] == reaped0.take(i as int)[k]);
                    }
                }
                assert(reaped_effect(pre0, *self, out, recs1));
            }
            i = i + 1;
        }
        proof {
            assert(reaped0.take(p) =~= reaped0);
            assert(reaped0 == pre0.life_tracker.records@.take(p));
            assert(reaped_effect(pre0, *self, out, pre0.life_tracker.records@.take(p)));
            assert forall|k: int| 0 <= k < p implies (#[trigger] pre0.life_tracker.records@[k]).fence_signaled by {
                assert(reaped0[k] == pre0.life_tracker.records@.take(p)[k]);
                assert(reaped0[k].fence_signaled);
            }
            assert(self.life_tracker.records@ == pre0.life_tracker.records@.skip(p));
            assert(reap_step_at(pre0, *self, out, p));
            assert(final(self).wf()) by {
                assert(final(self).trackers.states@.dom() == final(self).buffers@.dom());
                assert forall|id: u64|
                    #[trigger] final(self).buffers@.contains_key(id) implies final(self).buffers@[id].life_guard.last_use <= final(self).submission_index + 1 by {
                    assert(pre0.buffers@.contains_key(id));
                    assert(final(self).buffers@[id].life_guard == pre0.buffers@[id].life_guard);
                }
                assert forall|id: u64|
                    #[trigger] final(self).textures@.contains_key(id) implies final(self).textures@[id].life_guard.last_use <= final(self).submission_index + 1 by {
                    assert(pre0.textures@.contains_key(id));
                    assert(final(self).textures@[id] == pre0.textures@[id]);
                }
                assert forall|k: int|
                    0 <= k < final(self).life_tracker.records@.len() implies (#[trigger] final(self).life_tracker.records@[k]).index <= final(self).submission_index by {
                    assert(final(self).life_tracker.records@[k]
                        == pre0.life_tracker.records@[k + p]);
                }
            }
        }
        out
    }

    /// The maintenance pass of the device: optionally waits for the oldest
    /// incomplete submission to complete, then reaps every completed
    /// submission at the head of the queue in order. Repeated polls with no
    /// new submissions and no new hardware progress change nothing: after
    /// one pass the queue's head, if any, is an incomplete submission.
    pub fn maintain(&mut self, wait: bool) -> (out: MaintainResult)
        requires
            old(self).wf(),
        ensures
            final(self).wf(),
            exists|mid: Device|
                #[trigger] hw_maybe(*old(self), wait, mid) && reap_step(
                    mid,
                    *final(self),
                    out,
                ),
    {
        if wait {
            let _ = self.complete_oldest();
        }
        let ghost mid = *self;
        let out = self.reap_completed();
        proof {
            if wait {
                assert(hw_maybe(*old(self), wait, mid));
            } else {
                assert(mid == *old(self));
                assert(hw_maybe(*old(self), wait, mid));
            }
        }
        out
    }
}

/// The one-record finalization relation proved by `process_record`.
pub open spec fn process_record_rel(
    pre: Device,
    post: Device,
    out_pre: MaintainResult,
    out_post: MaintainResult,
    rec: SubmissionRecord,
) -> bool {
    &&& post.buffers.wf()
    &&& post.textures.wf()
    &&& post.trackers.wf()
    &&& post.trackers.states@.dom() == post.buffers@.dom()
    &&& (forall|id: u64|
        #[trigger] post.buffers@.contains_key(id) ==> pre.buffers@.contains_key(id)
            && post.buffers@[id].usage == pre.buffers@[id].usage && post.buffers@[id].contents
            == pre.buffers@[id].contents && post.buffers@[id].life_guard
            == pre.buffers@[id].life_guard && (post.buffers@[id].map_state
            == pre.buffers@[id].map_state || (pre.buffers@[id].map_state is Waiting
            && pre.buffers@[id].life_guard.last_use <= rec.index
            && post.buffers@[id].map_state is Active)))
    &&& (forall|id: u64|
        #[trigger] post.buffers@.contains_key(id) && pre.buffers@[id].map_state is Waiting
            && pre.buffers@[id].life_guard.last_use <= rec.index
            ==> post.buffers@[id].map_state is Active)
    &&& (forall|id: u64|
        (#[trigger] pre.buffers@.contains_key(id)) && !post.buffers@.contains_key(id)
            ==> pre.buffers@[id].life_guard.ref_count == 0 && rec.suspected_buffers@.contains(id)
            && pre.buffers@[id].life_guard.last_use <= rec.index)
    &&& (forall|id: u64|
        #[trigger] out_post.destroyed_buffers@.contains(id) == (
        out_pre.destroyed_buffers@.contains(id) || (pre.buffers@.contains_key(id)
            && !post.buffers@.contains_key(id))))
    &&& (forall|id: u64|
        #[trigger] out_post.callbacks@.contains(id) == (out_pre.callbacks@.contains(id) || (
        post.buffers@.contains_key(id) && pre.buffers@[id].map_state is Waiting
            && pre.buffers@[id].life_guard.last_use <= rec.index)))
    &&& (forall|id: u64|
        #[trigger] post.buffers@.contains_key(id) ==> post.trackers.states@[id]
            == pre.trackers.states@[id])
    &&& (forall|id: u64|
        #[trigger] post.textures@.contains_key(id) ==> pre.textures@.contains_key(id)
            && post.textures@[id] == pre.textures@[id])
    &&& (forall|id: u64|
        (#[trigger] pre.textures@.contains_key(id)) && !post.textures@.contains_key(id)
            ==> pre.textures@[id].life_guard.ref_count == 0 && rec.suspected_textures@.contains(id)
            && pre.textures@[id].life_guard.last_use <= rec.index)
    &&& (forall|id: u64|
        #[trigger] out_post.destroyed_textures@.contains(id) == (
        out_pre.destroyed_textures@.contains(id) || (pre.textures@.contains_key(id)
            && !post.textures@.contains_key(id))))
    &&& out_post.freed_staging@ == out_pre.freed_staging@
    &&& post.submission_index == pre.submission_index
    &&& post.pending_writes == pre.pending_writes
    &&& post.command_buffers == pre.command_buffers
    &&& post.swap_chains == pre.swap_chains
    &&& post.life_tracker == pre.life_tracker
}

/// Faults of a deferred buffer write, in the order they are checked: the
/// destination must exist, must carry the copy-destination usage flag, and
/// the written range must lie inside it. All are caller-contract
/// violations, surfaced as fatal descriptive errors.
#[derive(Debug, Clone, Copy, PartialEq, Eq, Structural)]
pub enum WriteError {
    /// No buffer lives under this handle.
    UnknownBuffer(u64),
    /// The destination was created without the copy-destination usage flag.
    MissingCopyDstUsage(u64),
    /// The written byte range ends past the destination's size.
    DestinationOutOfBounds(u64),
}

/// The fault a deferred write of `len` bytes at `buffer_offset` of
/// `buffer_id` would hit on device `d`, if any.
pub open spec fn write_fault(d: Device, buffer_id: u64, buffer_offset: u64, len: nat) -> Option<
    WriteError,
> {
    if !d.buffers@.contains_key(buffer_id) {
        Some(WriteError::UnknownBuffer(buffer_id))
    } else if d.buffers@[buffer_id].usage & crate::resource::USAGE_COPY_DST == 0 {
        Some(WriteError::MissingCopyDstUsage(buffer_id))
    } else if buffer_offset + len > d.buffers@[buffer_id].contents@.len() {
        Some(WriteError::DestinationOutOfBounds(buffer_id))
    } else {
        None
    }
}

impl Device {
    /// Enqueues a deferred host-to-device write: stages a copy of `data`,
    /// requests a copy-destination transition for the destination from the
    /// tracker, and records the staging barrier, the transition barrier (if
    /// one is needed) and the copy into the shared deferred command buffer.
    /// The staging buffer belongs to the next submission, so the
    /// destination's last use advances to `submission_index + 1`. Succeeds
    /// exactly when the destination exists, permits copies into it, and the
    /// written range lies inside it; on a fault the device is unchanged.
    pub fn queue_write_buffer(
        &mut self,
        buffer_id: u64,
        buffer_offset: u64,
        data: &Vec<u8>,
    ) -> (r: Result<(), WriteError>)
        requires
            old(self).wf(),
            old(self).submission_index < u64::MAX,
        ensures
            final(self).wf(),
            r == (match write_fault(*old(self), buffer_id, buffer_offset, data@.len()) {
                None => Ok::<(), WriteError>(()),
                Some(e) => Err::<(), WriteError>(e),
            }),
            r is Err ==> *final(self) == *old(self),
            r is Ok ==> {
                &&& final(self).submission_index == old(self).submission_index
                &&& final(self).buffers@.dom() == old(self).buffers@.dom()
                &&& final(self).buffers@[buffer_id].life_guard.last_use == old(self).submission_index + 1
                &&& final(self).buffers@[buffer_id].life_guard.ref_count == old(self).buffers@[buffer_id].life_guard.ref_count
                &&& final(self).buffers@[buffer_id].map_state == old(self).buffers@[buffer_id].map_state
                &&& final(self).buffers@[buffer_id].usage == old(self).buffers@[buffer_id].usage
                &&& final(self).buffers@[buffer_id].contents == old(self).buffers@[buffer_id].contents
                &&& (forall|o: u64|
                    o != buffer_id ==> #[trigger] final(self).buffers@[o] == old(self).buffers@[o])
                &&& final(self).trackers.states@ == old(self).trackers.states@.insert(
                    buffer_id,
                    crate::track::USE_COPY_DST,
                )
                &&& temps_bytes(final(self).pending_writes.temp_buffers@) == temps_bytes(
                    old(self).pending_writes.temp_buffers@,
                ).push(data@)
                &&& final(self).pending_writes.command_buffer.commands() == old(self).pending_writes.command_buffer.commands() + (seq![
                    (Command::StagingBarrier {
                        staging: old(self).pending_writes.temp_buffers@.len() as usize,
                    }),
                ]) + (if old(self).trackers.states@[buffer_id] != crate::track::USE_COPY_DST {
                    seq![
                        (Command::Transition {
                            id: buffer_id,
                            from_state: old(self).trackers.states@[buffer_id],
                            to_state: crate::track::USE_COPY_DST,
                        }),
                    ]
                } else {
                    Seq::<Command>::empty()
                }) + (seq![
                    (Command::CopyFromStaging {
                        staging: old(self).pending_writes.temp_buffers@.len() as usize,
                        dst: buffer_id,
                        dst_offset: buffer_offset,
                    }),
                ])
                &&& final(self).textures == old(self).textures
                &&& final(self).command_buffers == old(self).command_buffers
                &&& final(self).swap_chains == old(self).swap_chains
                &&& final(self).life_tracker == old(self).life_tracker
            },
    {
        if !self.buffers.contains(buffer_id) {
            return Err(WriteError::UnknownBuffer(buffer_id));
        }
        let blen: usize;
        {
            let b = self.buffers.get(buffer_id).unwrap();
            if b.usage & crate::resource::USAGE_COPY_DST == 0 {
                return Err(WriteError::MissingCopyDstUsage(buffer_id));
            }
            blen = b.contents.len();
        }
        if buffer_offset > blen as u64 || data.len() as u64 > blen as u64 - buffer_offset {
            return Err(WriteError::DestinationOutOfBounds(buffer_id));
        }
        let ghost cmds0 = self.pending_writes.command_buffer.commands();
        let ghost temps0 = self.pending_writes.temp_buffers@;
        let transition = self.trackers.use_replace(buffer_id, crate::track::USE_COPY_DST);
        let next_index = self.submission_index + 1;
        {
            let b = self.buffers.get_mut(buffer_id);
            let _ = b.life_guard.use_at(next_index);
        }
        let staging = StagingBuffer { bytes: clone_bytes(data) };
        let sidx = self.pending_writes.push_staging(staging);
        self.pending_writes.push_command(Command::StagingBarrier { staging: sidx });
        match transition {
            Some(t) => {
                self.pending_writes.push_command(
                    Command::Transition { id: buffer_id, from_state: t.0, to_state: t.1 },
                );
            },
            None => {},
        }
        self.pending_writes.push_command(
            Command::CopyFromStaging { staging: sidx, dst: buffer_id, dst_offset: buffer_offset },
        );
        proof {
            assert(temps_bytes(final(self).pending_writes.temp_buffers@) =~= temps_bytes(temps0).push(
                data@,
            ));
            let sb = (Command::StagingBarrier { staging: temps0.len() as usize });
            let tr = (if old(self).trackers.states@[buffer_id] != crate::track::USE_COPY_DST {
                seq![
                    (Command::Transition {
                        id: buffer_id,
                        from_state: old(self).trackers.states@[buffer_id],
                        to_state: crate::track::USE_COPY_DST,
                    }),
                ]
            } else {
                Seq::<Command>::empty()
            });
            let cp = (Command::CopyFromStaging {
                staging: temps0.len() as usize,
                dst: buffer_id,
                dst_offset: buffer_offset,
            });
            assert(final(self).pending_writes.command_buffer.commands() =~= cmds0 + seq![sb] + tr
                + seq![cp]);
            assert(final(self).trackers.states@.dom() =~= old(self).trackers.states@.dom());
            assert(final(self).buffers@.dom() =~= old(self).buffers@.dom());
        }
        Ok(())
    }
}

/// Faults of a submission, one per caller-contract violation the validation
/// pass detects. All are fatal: nothing is submitted and the device is
/// unchanged.
#[derive(Debug, Clone, Copy, PartialEq, Eq, Structural)]
pub enum SubmitError {
    /// No command buffer lives under this handle.
    UnknownCommandBuffer(u64),
    /// The same command buffer was handed in twice.
    DuplicateCommandBuffer(u64),
    /// A command buffer presents to a surface that does not exist.
    UnknownSwapChain(u64),
    /// The surface's output was dropped before the command buffer using it
    /// was submitted.
    SwapChainOutputDropped(u64),
    /// A command buffer uses a buffer that does not exist.
    UnknownBuffer(u64),
    /// A command buffer uses a buffer that is host-mapped right now.
    BufferStillMapped(u64),
    /// A command buffer uses a texture that does not exist.
    UnknownTexture(u64),
}

/// What a successful submission returns: the submission's index, the
/// buffers whose pending mapping was silently dropped (each is a
/// diagnostic warning), and what the closing maintenance pass produced —
/// its callbacks are invoked by the caller after every lock is released.
pub struct SubmitOutput {
    pub index: u64,
    pub warnings: Vec<u64>,
    pub maintain: MaintainResult,
}

/// One command buffer is fit for submission: it exists, its surface (if
/// any) still has its acquired output, every buffer it uses exists and is
/// not actively host-mapped, and every texture it uses exists.
pub open spec fn cmb_ok(d: Device, c: u64) -> bool {
    &&& d.command_buffers@.contains_key(c)
    &&& match d.command_buffers@[c].used_swap_chain {
        Some(sc) => d.swap_chains@.contains_key(sc) && d.swap_chains@[sc].acquired_view,
        None => true,
    }
    &&& forall|u: int|
        0 <= u < d.command_buffers@[c].buffer_uses.uses@.len() ==> d.buffers@.contains_key(
            (#[trigger] d.command_buffers@[c].buffer_uses.uses@[u]).0,
        ) && !(d.buffers@[d.command_buffers@[c].buffer_uses.uses@[u].0].map_state is Active)
    &&& forall|u: int|
        0 <= u < d.command_buffers@[c].texture_uses.uses@.len() ==> d.textures@.contains_key(
            (#[trigger] d.command_buffers@[c].texture_uses.uses@[u]).0,
        )
}

/// A submission is accepted exactly when every named command buffer is fit
/// and none is named twice.
pub open spec fn submit_ok(d: Device, ids: Seq<u64>) -> bool {
    &&& forall|k: int| 0 <= k < ids.len() ==> cmb_ok(d, #[trigger] ids[k])
    &&& forall|k: int, j: int| 0 <= k < j < ids.len() ==> ids[k] != ids[j]
}

/// Each error names an input that indeed has that fault.
pub open spec fn submit_fault_witness(d: Device, ids: Seq<u64>, e: SubmitError) -> bool {
    match e {
        SubmitError::UnknownCommandBuffer(c) => ids.contains(c)
            && !d.command_buffers@.contains_key(c),
        SubmitError::DuplicateCommandBuffer(c) => exists|k: int, j: int|
            0 <= k < j < ids.len() && ids[k] == c && ids[j] == c,
        SubmitError::UnknownSwapChain(sc) => exists|k: int|
            0 <= k < ids.len() && d.command_buffers@.contains_key(#[trigger] ids[k])
                && d.command_buffers@[ids[k]].used_swap_chain == Some(sc)
                && !d.swap_chains@.contains_key(sc),
        SubmitError::SwapChainOutputDropped(sc) => exists|k: int|
            0 <= k < ids.len() && d.command_buffers@.contains_key(#[trigger] ids[k])
                && d.command_buffers@[ids[k]].used_swap_chain == Some(sc)
                && d.swap_chains@.contains_key(sc) && !d.swap_chains@[sc].acquired_view,
        SubmitError::UnknownBuffer(b) => buffer_used_in(d, ids, b) && !d.buffers@.contains_key(b),
        SubmitError::BufferStillMapped(b) => buffer_used_in(d, ids, b)
            && d.buffers@.contains_key(b) && d.buffers@[b].map_state is Active,
        SubmitError::UnknownTexture(t) => texture_used_in(d, ids, t)
            && !d.textures@.contains_key(t),
    }
}

/// Some command buffer of `ids` uses buffer `bid`.
pub open spec fn buffer_used_in(d: Device, ids: Seq<u64>, bid: u64) -> bool {
    exists|k: int|
        0 <= k < ids.len() && d.command_buffers@.contains_key(#[trigger] ids[k]) && uses_id(
            d.command_buffers@[ids[k]].buffer_uses.uses@,
            bid,
        )
}

/// Some command buffer of `ids` uses texture `tid`.
pub open spec fn texture_used_in(d: Device, ids: Seq<u64>, tid: u64) -> bool {
    exists|k: int|
        0 <= k < ids.len() && d.command_buffers@.contains_key(#[trigger] ids[k]) && uses_id(
            d.command_buffers@[ids[k]].texture_uses.uses@,
            tid,
        )
}

/// Some command buffer of `ids` presents to surface `sc`.
pub open spec fn swap_chain_used_in(d: Device, ids: Seq<u64>, sc: u64) -> bool {
    exists|k: int|
        0 <= k < ids.len() && d.command_buffers@.contains_key(#[trigger] ids[k])
            && d.command_buffers@[ids[k]].used_swap_chain == Some(sc)
}

pub proof fn lemma_buffer_used_in_push(d: Device, ids: Seq<u64>, c: u64, bid: u64)
    ensures
        buffer_used_in(d, ids.push(c), bid) == (buffer_used_in(d, ids, bid) || (
        d.command_buffers@.contains_key(c) && uses_id(d.command_buffers@[c].buffer_uses.uses@, bid))),
{
    if buffer_used_in(d, ids, bid) {
        let k = choose|k: int|
            0 <= k < ids.len() && d.command_buffers@.contains_key(#[trigger] ids[k]) && uses_id(
                d.command_buffers@[ids[k]].buffer_uses.uses@,
                bid,
            );
        assert(ids.push(c)[k] == ids[k]);
    }
    if d.command_buffers@.contains_key(c) && uses_id(d.command_buffers@[c].buffer_uses.uses@, bid) {
        assert(ids.push(c)[ids.len() as int] == c);
    }
    if buffer_used_in(d, ids.push(c), bid) {
        let k = choose|k: int|
            0 <= k < ids.push(c).len() && d.command_buffers@.contains_key(#[trigger] ids.push(c)[k])
                && uses_id(d.command_buffers@[ids.push(c)[k]].buffer_uses.uses@, bid);
        if k < ids.len() {
            assert(ids[k] == ids.push(c)[k]);
        }
    }
}

pub proof fn lemma_texture_used_in_push(d: Device, ids: Seq<u64>, c: u64, tid: u64)
    ensures
        texture_used_in(d, ids.push(c), tid) == (texture_used_in(d, ids, tid) || (
        d.command_buffers@.contains_key(c) && uses_id(d.command_buffers@[c].texture_uses.uses@, tid))),
{
    if texture_used_in(d, ids, tid) {
        let k = choose|k: int|
            0 <= k < ids.len() && d.command_buffers@.contains_key(#[trigger] ids[k]) && uses_id(
                d.command_buffers@[ids[k]].texture_uses.uses@,
                tid,
            );
        assert(ids.push(c)[k] == ids[k]);
    }
    if d.command_buffers@.contains_key(c) && uses_id(d.command_buffers@[c].texture_uses.uses@, tid) {
        assert(ids.push(c)[ids.len() as int] == c);
    }
    if texture_used_in(d, ids.push(c), tid) {
        let k = choose|k: int|
            0 <= k < ids.push(c).len() && d.command_buffers@.contains_key(#[trigger] ids.push(c)[k])
                && uses_id(d.command_buffers@[ids.push(c)[k]].texture_uses.uses@, tid);
        if k < ids.len() {
            assert(ids[k] == ids.push(c)[k]);
        }
    }
}

pub proof fn lemma_swap_chain_used_in_push(d: Device, ids: Seq<u64>, c: u64, sc: u64)
    ensures
        swap_chain_used_in(d, ids.push(c), sc) == (swap_chain_used_in(d, ids, sc) || (
        d.command_buffers@.contains_key(c) && d.command_buffers@[c].used_swap_chain == Some(sc))),
{
    if swap_chain_used_in(d, ids, sc) {
        let k = choose|k: int|
            0 <= k < ids.len() && d.command_buffers@.contains_key(#[trigger] ids[k])
                && d.command_buffers@[ids[k]].used_swap_chain == Some(sc);
        assert(ids.push(c)[k] == ids[k]);
    }
    if d.command_buffers@.contains_key(c) && d.command_buffers@[c].used_swap_chain == Some(sc) {
        assert(ids.push(c)[ids.len() as int] == c);
    }
    if swap_chain_used_in(d, ids.push(c), sc) {
        let k = choose|k: int|
            0 <= k < ids.push(c).len() && d.command_buffers@.contains_key(#[trigger] ids.push(c)[k])
                && d.command_buffers@[ids.push(c)[k]].used_swap_chain == Some(sc);
        if k < ids.len() {
            assert(ids[k] == ids.push(c)[k]);
        }
    }
}

/// Membership probe for a handle list.
fn vec_contains(v: &Vec<u64>, x: u64) -> (r: bool)
    ensures
        r == v@.contains(x),
{
    let mut i: usize = 0;
    while i < v.len()
        invariant
            i <= v@.len(),
            forall|k: int| 0 <= k < i ==> v@[k] != x,
        decreases v@.len() - i,
    {
        if v[i] == x {
            proof {
                assert(v@[i as int] == x);
            }
            return true;
        }
        i = i + 1;
    }
    return false;
}

/// The device state once the hardware submission is issued and registered,
/// before the closing maintenance pass: the submission index advanced, the
/// pending writes moved into a fresh unsignaled record at the queue's
/// tail — its commands start with the deferred write commands and append
/// only barriers and command-buffer replays — every used resource's last
/// use advanced to the new index, newly unreferenced resources suspected,
/// pending mappings of used buffers dropped with a warning, and the named
/// command buffers returned to the pool.
pub open spec fn submit_issued(pre: Device, mid: Device, ids: Seq<u64>, warnings: Seq<u64>) -> bool {
    let pw = pre.pending_writes.command_buffer.commands();
    let rec = mid.life_tracker.records@.last();
    &&& mid.submission_index == pre.submission_index + 1
    &&& mid.pending_writes.command_buffer is Empty
    &&& mid.pending_writes.temp_buffers@.len() == 0
    &&& mid.life_tracker.records@.len() == pre.life_tracker.records@.len() + 1
    &&& mid.life_tracker.records@.drop_last() == pre.life_tracker.records@
    &&& rec.index == pre.submission_index + 1
    &&& !rec.fence_signaled
    &&& temps_bytes(rec.temp_buffers@) == temps_bytes(pre.pending_writes.temp_buffers@)
    &&& rec.commands@.len() >= pw.len()
    &&& rec.commands@.take(pw.len() as int) == pw
    &&& (forall|j: int|
        pw.len() <= j < rec.commands@.len() ==> !((#[trigger] rec.commands@[j]) is CopyFromStaging)
            && !(rec.commands@[j] is StagingBarrier))
    &&& (ids.len() == 0 ==> rec.commands@ == pw)
    &&& (ids.len() == 0 ==> rec.signal_swap_chains@ == Seq::<u64>::empty())
    &&& (forall|sc: u64|
        #[trigger] rec.signal_swap_chains@.contains(sc) ==> swap_chain_used_in(pre, ids, sc)
            && pre.swap_chains@.contains_key(sc) && pre.swap_chains@[sc].acquired_framebuffers
            == 0)
    &&& (forall|bid: u64|
        #[trigger] rec.suspected_buffers@.contains(bid) == (buffer_used_in(pre, ids, bid)
            && pre.buffers@[bid].life_guard.ref_count == 0))
    &&& (forall|tid: u64|
        #[trigger] rec.suspected_textures@.contains(tid) == (texture_used_in(pre, ids, tid)
            && pre.textures@[tid].life_guard.ref_count == 0))
    &&& mid.buffers@.dom() == pre.buffers@.dom()
    &&& (forall|bid: u64|
        #[trigger] mid.buffers@.contains_key(bid) ==> mid.buffers@[bid].usage
            == pre.buffers@[bid].usage && mid.buffers@[bid].contents == pre.buffers@[bid].contents
            && mid.buffers@[bid].life_guard.ref_count == pre.buffers@[bid].life_guard.ref_count
            && (if buffer_used_in(pre, ids, bid) {
            mid.buffers@[bid].life_guard.last_use == pre.submission_index + 1 && !(
            mid.buffers@[bid].map_state is Waiting) && (mid.buffers@[bid].map_state
                == pre.buffers@[bid].map_state || (pre.buffers@[bid].map_state is Waiting
                && mid.buffers@[bid].map_state is Idle))
        } else {
            mid.buffers@[bid].life_guard == pre.buffers@[bid].life_guard
                && mid.buffers@[bid].map_state == pre.buffers@[bid].map_state
        }))
    &&& (forall|bid: u64|
        #[trigger] warnings.contains(bid) == (buffer_used_in(pre, ids, bid)
            && pre.buffers@[bid].map_state is Waiting))
    &&& mid.textures@.dom() == pre.textures@.dom()
    &&& (forall|tid: u64|
        #[trigger] mid.textures@.contains_key(tid) ==> mid.textures@[tid].life_guard.ref_count
            == pre.textures@[tid].life_guard.ref_count && (if texture_used_in(pre, ids, tid) {
            mid.textures@[tid].life_guard.last_use == pre.submission_index + 1
        } else {
            mid.textures@[tid] == pre.textures@[tid]
        }))
    &&& (forall|c: u64|
        #[trigger] mid.command_buffers@.contains_key(c) == (pre.command_buffers@.contains_key(c)
            && !ids.contains(c)))
    &&& (forall|c: u64|
        #[trigger] mid.command_buffers@.contains_key(c) ==> mid.command_buffers@[c]
            == pre.command_buffers@[c])
    &&& mid.swap_chains@.dom() == pre.swap_chains@.dom()
    &&& (forall|sc: u64|
        #[trigger] mid.swap_chains@.contains_key(sc) ==> mid.swap_chains@[sc].acquired_view
            == pre.swap_chains@[sc].acquired_view && mid.swap_chains@[sc].acquired_framebuffers
            >= pre.swap_chains@[sc].acquired_framebuffers && (swap_chain_used_in(pre, ids, sc)
            || mid.swap_chains@[sc] == pre.swap_chains@[sc]))
}

/// The running state of the submission loop after the first `k2` command
/// buffers of `ids` are stitched in, relative to the device state `pre0` at
/// the start of the submission.
pub open spec fn submit_loop_inv(
    pre0: Device,
    ids: Seq<u64>,
    k2: int,
    cur: Device,
    commands: Seq<Command>,
    signal: Seq<u64>,
    warnings: Seq<u64>,
    susp_b: Seq<u64>,
    susp_t: Seq<u64>,
    submit_index: u64,
) -> bool {
    let pw = pre0.pending_writes.command_buffer.commands();
    let pw_len = pw.len() as int;
    &&& (cur.submission_index == submit_index)
    &&& (cur.buffers.wf())
    &&& (cur.textures.wf())
    &&& (cur.command_buffers.wf())
    &&& (cur.swap_chains.wf())
    &&& (cur.trackers.wf())
    &&& (cur.trackers.states@.dom() == cur.buffers@.dom())
    &&& (cur.life_tracker == pre0.life_tracker)
    &&& (cur.pending_writes.command_buffer is Empty)
    &&& (cur.pending_writes.temp_buffers == pre0.pending_writes.temp_buffers)
    &&& (cur.buffers@.dom() == pre0.buffers@.dom())
    &&& (forall|bid: u64|
                    #[trigger] cur.buffers@.contains_key(bid) ==> cur.buffers@[bid].usage
                        == pre0.buffers@[bid].usage && cur.buffers@[bid].contents
                        == pre0.buffers@[bid].contents && cur.buffers@[bid].life_guard.ref_count
                        == pre0.buffers@[bid].life_guard.ref_count && (if buffer_used_in(
                        pre0,
                        ids.take(k2),
                        bid,
                    ) {
                        cur.buffers@[bid].life_guard.last_use == submit_index && !(
                        cur.buffers@[bid].map_state is Waiting) && (cur.buffers@[bid].map_state
                            == pre0.buffers@[bid].map_state || (
                        pre0.buffers@[bid].map_state is Waiting
                            && cur.buffers@[bid].map_state is Idle))
                    } else {
                        cur.buffers@[bid].life_guard == pre0.buffers@[bid].life_guard
                            && cur.buffers@[bid].map_state == pre0.buffers@[bid].map_state
                    }))
    &&& (forall|bid: u64|
                    #[trigger] warnings.contains(bid) == (buffer_used_in(
                        pre0,
                        ids.take(k2),
                        bid,
                    ) && pre0.buffers@[bid].map_state is Waiting))
    &&& (forall|bid: u64|
                    #[trigger] susp_b.contains(bid) == (buffer_used_in(
                        pre0,
                        ids.take(k2),
                        bid,
                    ) && pre0.buffers@[bid].life_guard.ref_count == 0))
    &&& (cur.textures@.dom() == pre0.textures@.dom())
    &&& (forall|tid: u64|
                    #[trigger] cur.textures@.contains_key(tid)
                        ==> cur.textures@[tid].life_guard.ref_count
                        == pre0.textures@[tid].life_guard.ref_count && (if texture_used_in(
                        pre0,
                        ids.take(k2),
                        tid,
                    ) {
                        cur.textures@[tid].life_guard.last_use == submit_index
                    } else {
                        cur.textures@[tid] == pre0.textures@[tid]
                    }))
    &&& (forall|tid: u64|
                    #[trigger] susp_t.contains(tid) == (texture_used_in(
                        pre0,
                        ids.take(k2),
                        tid,
                    ) && pre0.textures@[tid].life_guard.ref_count == 0))
    &&& (forall|c: u64|
                    #[trigger] cur.command_buffers@.contains_key(c) == (
                    pre0.command_buffers@.contains_key(c) && !ids.take(k2).contains(c)))
    &&& (forall|c: u64|
                    #[trigger] cur.command_buffers@.contains_key(c) ==> cur.command_buffers@[c]
                        == pre0.command_buffers@[c])
    &&& (cur.swap_chains@.dom() == pre0.swap_chains@.dom())
    &&& (forall|sc: u64|
                    #[trigger] cur.swap_chains@.contains_key(sc)
                        ==> cur.swap_chains@[sc].acquired_view
                        == pre0.swap_chains@[sc].acquired_view
                        && cur.swap_chains@[sc].acquired_framebuffers
                        >= pre0.swap_chains@[sc].acquired_framebuffers
                        && cur.swap_chains@[sc].acquired_framebuffers
                        <= pre0.swap_chains@[sc].acquired_framebuffers + k2 && (swap_chain_used_in(
                        pre0,
                        ids.take(k2),
                        sc,
                    ) || cur.swap_chains@[sc] == pre0.swap_chains@[sc]))
    &&& (forall|sc: u64|
                    #[trigger] signal.contains(sc) ==> swap_chain_used_in(
                        pre0,
                        ids.take(k2),
                        sc,
                    ) && pre0.swap_chains@.contains_key(sc)
                        && pre0.swap_chains@[sc].acquired_framebuffers == 0)
    &&& (commands.len() >= pw_len)
    &&& (commands.take(pw_len) == pw)
    &&& (forall|j: int|
                    pw_len <= j < commands.len() ==> !((#[trigger] commands[j]) is CopyFromStaging)
                        && !(commands[j] is StagingBarrier))
    &&& (k2 == 0 ==> commands == pw)
}

/// What a successful submission guarantees: the index advanced by one, a
/// fresh unsignaled record for this submission sits at the tail, and the
/// final state is an issued submission followed by one non-blocking
/// maintenance poll.
pub open spec fn submit_post(pre: Device, post: Device, ids: Seq<u64>, out: SubmitOutput) -> bool {
    &&& out.index == pre.submission_index + 1
    &&& post.submission_index == pre.submission_index + 1
    &&& exists|mid: Device|
        #[trigger] submit_issued(pre, mid, ids, out.warnings@) && reap_step(mid, post, out.maintain)
    &&& post.life_tracker.records@.len() >= 1
    &&& post.life_tracker.records@.last().index == pre.submission_index + 1
    &&& !post.life_tracker.records@.last().fence_signaled
}

impl Device {
    /// Finds any caller-contract violation of a submission without
    /// touching the device.
    #[verifier::loop_isolation(false)]
    #[verifier::rlimit(100)]
    fn validate_submission(&self, ids: &Vec<u64>) -> (r: Option<SubmitError>)
        requires
            self.wf(),
        ensures
            (r is None) == submit_ok(*self, ids@),
            r matches Some(e) ==> submit_fault_witness(*self, ids@, e),
    {
        let mut k: usize = 0;
        while k < ids.len()
            invariant
                k <= ids@.len(),
                forall|a: int| 0 <= a < k ==> cmb_ok(*self, #[trigger] ids@[a]),
                forall|a: int, b: int| 0 <= a < b < k ==> ids@[a] != ids@[b],
            decreases ids@.len() - k,
        {
            let c = ids[k];
            let mut j: usize = 0;
            while j < k
                invariant
                    j <= k < ids@.len(),
                    c == ids@[k as int],
                    forall|a: int| 0 <= a < j ==> ids@[a] != c,
                decreases k - j,
            {
                if ids[j] == c {
                    proof {
                        assert(ids@[j as int] == c && ids@[k as int] == c);
                        assert(!submit_ok(*self, ids@));
                    }
                    return Some(SubmitError::DuplicateCommandBuffer(c));
                }
                j = j + 1;
            }
            match self.command_buffers.get(c) {
                None => {
                    proof {
                        assert(ids@.contains(c)) by {
                            assert(ids@[k as int] == c);
                        }
                        assert(!cmb_ok(*self, ids@[k as int]));
                        assert(!submit_ok(*self, ids@));
                    }
                    return Some(SubmitError::UnknownCommandBuffer(c));
                },
                Some(cmb) => {
                    match cmb.used_swap_chain {
                        Some(sc) => {
                            match self.swap_chains.get(sc) {
                                None => {
                                    proof {
                                        assert(!cmb_ok(*self, ids@[k as int]));
                                        assert(!submit_ok(*self, ids@));
                                    }
                                    return Some(SubmitError::UnknownSwapChain(sc));
                                },
                                Some(s) => {
                                    if !s.acquired_view {
                                        proof {
                                            assert(!cmb_ok(*self, ids@[k as int]));
                                            assert(!submit_ok(*self, ids@));
                                        }
                                        return Some(SubmitError::SwapChainOutputDropped(sc));
                                    }
                                },
                            }
                        },
                        None => {},
                    }
                    let mut u: usize = 0;
                    while u < cmb.buffer_uses.uses.len()
                        invariant
                            u <= cmb.buffer_uses.uses@.len(),
                                                        self.command_buffers@.contains_key(ids@[k as int]),
                            k < ids@.len(),
                            *cmb == self.command_buffers@[ids@[k as int]],
                            forall|a: int|
                                0 <= a < u ==> self.buffers@.contains_key(
                                    (#[trigger] cmb.buffer_uses.uses@[a]).0,
                                ) && !(self.buffers@[cmb.buffer_uses.uses@[a].0].map_state is Active),
                        decreases cmb.buffer_uses.uses@.len() - u,
                    {
                        let bid = cmb.buffer_uses.uses[u].0;
                        match self.buffers.get(bid) {
                            None => {
                                proof {
                                    assert(uses_id(cmb.buffer_uses.uses@, bid)) by {
                                        assert(cmb.buffer_uses.uses@[u as int].0 == bid);
                                    }
                                    assert(buffer_used_in(*self, ids@, bid)) by {
                                        assert(ids@[k as int] == ids@[k as int]);
                                    }
                                    assert(!cmb_ok(*self, ids@[k as int]));
                                    assert(!submit_ok(*self, ids@));
                                }
                                return Some(SubmitError::UnknownBuffer(bid));
                            },
                            Some(b) => {
                                let active = match b.map_state {
                                    MapState::Active => true,
                                    _ => false,
                                };
                                if active {
                                    proof {
                                        assert(uses_id(cmb.buffer_uses.uses@, bid)) by {
                                            assert(cmb.buffer_uses.uses@[u as int].0 == bid);
                                        }
                                        assert(buffer_used_in(*self, ids@, bid)) by {
                                            assert(ids@[k as int] == ids@[k as int]);
                                        }
                                        assert(!cmb_ok(*self, ids@[k as int]));
                                        assert(!submit_ok(*self, ids@));
                                    }
                                    return Some(SubmitError::BufferStillMapped(bid));
                                }
                            },
                        }
                        u = u + 1;
                    }
                    let mut u2: usize = 0;
                    while u2 < cmb.texture_uses.uses.len()
                        invariant
                            u2 <= cmb.texture_uses.uses@.len(),
                                                        self.command_buffers@.contains_key(ids@[k as int]),
                            k < ids@.len(),
                            *cmb == self.command_buffers@[ids@[k as int]],
                            forall|a: int|
                                0 <= a < u2 ==> self.textures@.contains_key(
                                    (#[trigger] cmb.texture_uses.uses@[a]).0,
                                ),
                        decreases cmb.texture_uses.uses@.len() - u2,
                    {
                        let tid = cmb.texture_uses.uses[u2].0;
                        if !self.textures.contains(tid) {
                            proof {
                                assert(uses_id(cmb.texture_uses.uses@, tid)) by {
                                    assert(cmb.texture_uses.uses@[u2 as int].0 == tid);
                                }
                                assert(texture_used_in(*self, ids@, tid)) by {
                                    assert(ids@[k as int] == ids@[k as int]);
                                }
                                assert(!cmb_ok(*self, ids@[k as int]));
                                assert(!submit_ok(*self, ids@));
                            }
                            return Some(SubmitError::UnknownTexture(tid));
                        }
                        u2 = u2 + 1;
                    }
                    proof {
                        assert(cmb_ok(*self, ids@[k as int]));
                    }
                },
            }
            k = k + 1;
        }
        proof {
            assert(submit_ok(*self, ids@));
        }
        None
    }

    /// Stitches one command buffer into the submission: step `k2` of the
    /// submission loop.
    #[verifier::loop_isolation(false)]
    #[verifier::rlimit(100)]
    fn submit_one(
        &mut self,
        c: u64,
        submit_index: u64,
        commands: &mut Vec<Command>,
        signal: &mut SignalList,
        warnings: &mut Vec<u64>,
        suspected_buffers: &mut Vec<u64>,
        suspected_textures: &mut Vec<u64>,
        Ghost(pre0): Ghost<Device>,
        Ghost(ids): Ghost<Seq<u64>>,
        Ghost(k2): Ghost<int>,
    )
        requires
            0 <= k2 < ids.len(),
            c == ids[k2],
            submit_ok(pre0, ids),
            pre0.wf(),
            pre0.submission_index < u64::MAX,
            forall|sc: u64|
                #[trigger] pre0.swap_chains@.contains_key(sc)
                    ==> pre0.swap_chains@[sc].acquired_framebuffers + ids.len() <= u64::MAX,
            submit_index == pre0.submission_index + 1,
            submit_loop_inv(
                pre0,
                ids,
                k2,
                *old(self),
                old(commands)@,
                signal_list_view(*old(signal)),
                old(warnings)@,
                old(suspected_buffers)@,
                old(suspected_textures)@,
                submit_index,
            ),
        ensures
            submit_loop_inv(
                pre0,
                ids,
                k2 + 1,
                *final(self),
                final(commands)@,
                signal_list_view(*final(signal)),
                final(warnings)@,
                final(suspected_buffers)@,
                final(suspected_textures)@,
                submit_index,
            ),
    {
        let ghost pw = pre0.pending_writes.command_buffer.commands();
        let ghost pw_len = pw.len() as int;
        proof {
                assert(cmb_ok(pre0, ids[k2]));
                assert(!ids.take(k2).contains(c)) by {
                    if ids.take(k2).contains(c) {
                        let a = choose|a: int| 0 <= a < k2 && ids.take(k2)[a] == c;
                        assert(ids[a] == c && ids[k2] == c);
                    }
                }
                assert(self.command_buffers@.contains_key(c));
            }
            let (opt, tex_used, sc_opt) = {
                let cmb = self.command_buffers.get(c).unwrap();
                (cmb.buffer_uses.optimize(), cmb.texture_uses.used(), cmb.used_swap_chain)
            };
            let ghost cmb0 = pre0.command_buffers@[c];
            proof {
                assert(ids.take(k2 + 1) =~= ids.take(k2).push(c));
            }

            match sc_opt {
                Some(sc) => {
                    proof {
                        assert(pre0.swap_chains@.contains_key(sc));
                    }
                    let ghost sig0 = signal_list_view(*signal);
                    let s = self.swap_chains.get_mut(sc);
                    if s.acquired_framebuffers == 0 {
                        signal_list_push(signal, sc);
                    }
                    s.acquired_framebuffers = s.acquired_framebuffers + 1;
                    proof {
                        assert(swap_chain_used_in(pre0, ids.take(k2 + 1), sc)) by {
                            lemma_swap_chain_used_in_push(pre0, ids.take(k2), c, sc);
                        }
                        assert forall|o: u64|
                            #[trigger] signal_list_view(*signal).contains(o) implies swap_chain_used_in(
                            pre0,
                            ids.take(k2 + 1),
                            o,
                        ) && pre0.swap_chains@.contains_key(o)
                            && pre0.swap_chains@[o].acquired_framebuffers == 0 by {
                            lemma_contains_push(sig0, sc, o);
                            if sig0.contains(o) {
                                lemma_swap_chain_used_in_push(pre0, ids.take(k2), c, o);
                            }
                        }
                    }
                },
                None => {
                    proof {
                        assert forall|o: u64|
                            #[trigger] signal_list_view(*signal).contains(o) implies swap_chain_used_in(
                            pre0,
                            ids.take(k2 + 1),
                            o,
                        ) && pre0.swap_chains@.contains_key(o)
                            && pre0.swap_chains@[o].acquired_framebuffers == 0 by {
                            lemma_swap_chain_used_in_push(pre0, ids.take(k2), c, o);
                        }
                    }
                },
            }

            proof {
                assert(self.command_buffers@.contains_key(c));
                assert(self.command_buffers@[c] == cmb0);
                assert forall|a: int|
                    0 <= a < opt@.len() implies pre0.buffers@.contains_key((#[trigger] opt@[a]).0)
                        && !(pre0.buffers@[opt@[a].0].map_state is Active) by {
                    assert(opt_has(opt@, opt@[a].0)) by {
                        assert(opt@[a].0 == opt@[a].0);
                    }
                    assert(uses_id(cmb0.buffer_uses.uses@, opt@[a].0));
                    let u = choose|u: int|
                        0 <= u < cmb0.buffer_uses.uses@.len() && cmb0.buffer_uses.uses@[u].0
                            == opt@[a].0;
                    assert(cmb_ok(pre0, ids[k2]));
                    assert(cmb0.buffer_uses.uses@[u] == cmb0.buffer_uses.uses@[u]);
                }
                assert forall|a: int|
                    0 <= a < tex_used@.len() implies pre0.textures@.contains_key(
                        #[trigger] tex_used@[a],
                    ) by {
                    assert(tex_used@.contains(tex_used@[a])) by {
                        assert(tex_used@[a] == tex_used@[a]);
                    }
                    assert(uses_id(cmb0.texture_uses.uses@, tex_used@[a]));
                    let u = choose|u: int|
                        0 <= u < cmb0.texture_uses.uses@.len() && cmb0.texture_uses.uses@[u].0
                            == tex_used@[a];
                    assert(cmb_ok(pre0, ids[k2]));
                    assert(cmb0.texture_uses.uses@[u] == cmb0.texture_uses.uses@[u]);
                }
            }
            let ghost self_b = *self;
            let mut n: usize = 0;
            while n < opt.len()
                invariant
                    n <= opt@.len(),
                    self.textures == self_b.textures,
                    self.command_buffers == self_b.command_buffers,
                    self.swap_chains == self_b.swap_chains,
                    self.trackers == self_b.trackers,
                    self.pending_writes == self_b.pending_writes,
                    self.life_tracker == self_b.life_tracker,
                    self.submission_index == self_b.submission_index,
                    self.trackers.wf(),
                    pre0.wf(),
                    submit_index == pre0.submission_index + 1,
                    forall|a: int, b: int| 0 <= a < b < opt@.len() ==> opt@[a].0 != opt@[b].0,
                    forall|bid: u64|
                        opt_has(opt@, bid) == uses_id(cmb0.buffer_uses.uses@, bid),
                    forall|a: int|
                        0 <= a < opt@.len() ==> pre0.buffers@.contains_key((#[trigger] opt@[a]).0)
                            && !(pre0.buffers@[opt@[a].0].map_state is Active),
                    self.buffers.wf(),
                    self.buffers@.dom() == pre0.buffers@.dom(),
                    self.trackers.states@.dom() == self.buffers@.dom(),
                    forall|bid: u64|
                        #[trigger] self.buffers@.contains_key(bid) ==> self.buffers@[bid].usage
                            == pre0.buffers@[bid].usage && self.buffers@[bid].contents
                            == pre0.buffers@[bid].contents
                            && self.buffers@[bid].life_guard.ref_count
                            == pre0.buffers@[bid].life_guard.ref_count && (if buffer_used_in(
                            pre0,
                            ids.take(k2),
                            bid,
                        ) || (exists|a: int| 0 <= a < n && (#[trigger] opt@[a]).0 == bid) {
                            self.buffers@[bid].life_guard.last_use == submit_index && !(
                            self.buffers@[bid].map_state is Waiting) && (
                            self.buffers@[bid].map_state == pre0.buffers@[bid].map_state || (
                            pre0.buffers@[bid].map_state is Waiting
                                && self.buffers@[bid].map_state is Idle))
                        } else {
                            self.buffers@[bid].life_guard == pre0.buffers@[bid].life_guard
                                && self.buffers@[bid].map_state == pre0.buffers@[bid].map_state
                        }),
                    forall|bid: u64|
                        #[trigger] warnings@.contains(bid) == ((buffer_used_in(
                            pre0,
                            ids.take(k2),
                            bid,
                        ) || (exists|a: int| 0 <= a < n && (#[trigger] opt@[a]).0 == bid))
                            && pre0.buffers@[bid].map_state is Waiting),
                    forall|bid: u64|
                        #[trigger] suspected_buffers@.contains(bid) == ((buffer_used_in(
                            pre0,
                            ids.take(k2),
                            bid,
                        ) || (exists|a: int| 0 <= a < n && (#[trigger] opt@[a]).0 == bid))
                            && pre0.buffers@[bid].life_guard.ref_count == 0),
                decreases opt@.len() - n,
            {
                let bid = opt[n].0;
                proof {
                    assert(opt@[n as int].0 == bid);
                    assert(pre0.buffers@.contains_key(bid));
                    assert(self.buffers@.contains_key(bid));
                }
                let ghost warn_n = warnings@;
                let ghost susp_n = suspected_buffers@;
                let ghost bufs_n = self.buffers@;
                let mut fresh_warning = false;
                {
                    let b = self.buffers.get_mut(bid);
                    let waiting = match b.map_state {
                        MapState::Waiting => true,
                        _ => false,
                    };
                    if waiting {
                        b.map_state = MapState::Idle;
                        fresh_warning = true;
                    }
                    let _ = b.life_guard.use_at(submit_index);
                }
                if fresh_warning {
                    warnings.push(bid);
                }
                let already_suspected = vec_contains(suspected_buffers, bid);
                let refd = {
                    let b2 = self.buffers.get(bid).unwrap();
                    b2.life_guard.ref_count > 0
                };
                if !refd && !already_suspected {
                    suspected_buffers.push(bid);
                }
                proof {
                    let used_before = (buffer_used_in(pre0, ids.take(k2), bid) || (
                    exists|a: int| 0 <= a < n && (#[trigger] opt@[a]).0 == bid));
                    assert forall|o: u64|
                        #[trigger] self.buffers@.contains_key(o) implies self.buffers@[o].usage
                        == pre0.buffers@[o].usage && self.buffers@[o].contents
                        == pre0.buffers@[o].contents && self.buffers@[o].life_guard.ref_count
                        == pre0.buffers@[o].life_guard.ref_count && (if buffer_used_in(
                        pre0,
                        ids.take(k2),
                        o,
                    ) || (exists|a: int| 0 <= a < n + 1 && (#[trigger] opt@[a]).0 == o) {
                        self.buffers@[o].life_guard.last_use == submit_index && !(
                        self.buffers@[o].map_state is Waiting) && (self.buffers@[o].map_state
                            == pre0.buffers@[o].map_state || (pre0.buffers@[o].map_state is Waiting
                            && self.buffers@[o].map_state is Idle))
                    } else {
                        self.buffers@[o].life_guard == pre0.buffers@[o].life_guard
                            && self.buffers@[o].map_state == pre0.buffers@[o].map_state
                    }) by {
                        if o != bid {
                            assert(self.buffers@[o] == bufs_n[o]);
                            if exists|a: int| 0 <= a < n + 1 && (#[trigger] opt@[a]).0 == o {
                                let a = choose|a: int| 0 <= a < n + 1 && (#[trigger] opt@[a]).0 == o;
                                assert(a < n);
                            }
                        }
                    }
                    assert forall|o: u64|
                        #[trigger] warnings@.contains(o) == ((buffer_used_in(
                            pre0,
                            ids.take(k2),
                            o,
                        ) || (exists|a: int| 0 <= a < n + 1 && (#[trigger] opt@[a]).0 == o))
                            && pre0.buffers@[o].map_state is Waiting) by {
                        if fresh_warning {
                            lemma_contains_push(warn_n, bid, o);
                        }
                        if o == bid {
                            assert(opt@[n as int].0 == o);
                            if fresh_warning {
                                assert(bufs_n[bid].map_state is Waiting);
                                assert(pre0.buffers@[bid].map_state is Waiting);
                            } else {
                                if pre0.buffers@[bid].map_state is Waiting {
                                    if !used_before {
                                        assert(bufs_n[bid].map_state
                                            == pre0.buffers@[bid].map_state);
                                        assert(false);
                                    } else {
                                        assert(warn_n.contains(bid));
                                    }
                                }
                            }
                        } else {
                            if exists|a: int| 0 <= a < n + 1 && (#[trigger] opt@[a]).0 == o {
                                let a = choose|a: int| 0 <= a < n + 1 && (#[trigger] opt@[a]).0 == o;
                                assert(a < n);
                            }
                        }
                    }
                    assert forall|o: u64|
                        #[trigger] suspected_buffers@.contains(o) == ((buffer_used_in(
                            pre0,
                            ids.take(k2),
                            o,
                        ) || (exists|a: int| 0 <= a < n + 1 && (#[trigger] opt@[a]).0 == o))
                            && pre0.buffers@[o].life_guard.ref_count == 0) by {
                        if !refd && !already_suspected {
                            lemma_contains_push(susp_n, bid, o);
                        }
                        if o == bid {
                            assert(opt@[n as int].0 == o);
                            assert(self.buffers@[bid].life_guard.ref_count
                                == pre0.buffers@[bid].life_guard.ref_count);
                        } else {
                            if exists|a: int| 0 <= a < n + 1 && (#[trigger] opt@[a]).0 == o {
                                let a = choose|a: int| 0 <= a < n + 1 && (#[trigger] opt@[a]).0 == o;
                                assert(a < n);
                            }
                        }
                    }
                    assert(self.trackers.states@.dom() =~= self.buffers@.dom());
                }
                n = n + 1;
            }
            proof {
                assert forall|bid: u64|
                    (buffer_used_in(pre0, ids.take(k2), bid) || (exists|a: int|
                        0 <= a < opt@.len() && (#[trigger] opt@[a]).0 == bid)) == buffer_used_in(
                    pre0,
                    ids.take(k2 + 1),
                    bid,
                ) by {
                    lemma_buffer_used_in_push(pre0, ids.take(k2), c, bid);
                    assert(opt_has(opt@, bid) == uses_id(cmb0.buffer_uses.uses@, bid));
                }
            }

            let barriers = self.trackers.insert_barriers(&opt);
            let ghost cmds_k = commands@;
            let mut bi: usize = 0;
            while bi < barriers.len()
                invariant
                    bi <= barriers@.len(),
                    commands@.len() == cmds_k.len() + bi,
                    commands@.take(cmds_k.len() as int) == cmds_k,
                    forall|j: int|
                        cmds_k.len() <= j < commands@.len() ==> (#[trigger] commands@[j]) is Transition,
                decreases barriers@.len() - bi,
            {
                let b = barriers[bi];
                commands.push(
                    Command::Transition { id: b.id, from_state: b.from_state, to_state: b.to_state },
                );
                proof {
                    assert(commands@.take(cmds_k.len() as int) =~= cmds_k);
                }
                bi = bi + 1;
            }
            let ghost cmds_b = commands@;
            commands.push(Command::RunCommandBuffer { cmb: c });
            proof {
                assert(commands@.take(pw_len) =~= pw);
                assert forall|j: int|
                    pw_len <= j < commands@.len() implies !((#[trigger] commands@[j]) is CopyFromStaging)
                        && !(commands@[j] is StagingBarrier) by {
                    if j < cmds_b.len() {
                        assert(commands@[j] == cmds_b[j]);
                        if j < cmds_k.len() {
                            assert(cmds_b[j] == cmds_b.take(cmds_k.len() as int)[j]);
                            assert(cmds_b[j] == cmds_k[j]);
                        } else {
                            assert(cmds_b[j] is Transition);
                        }
                    } else {
                        assert(commands@[j] == (Command::RunCommandBuffer { cmb: c }));
                    }
                }
            }

            let ghost self_t = *self;
            let mut m: usize = 0;
            while m < tex_used.len()
                invariant
                    m <= tex_used@.len(),
                    self.buffers == self_t.buffers,
                    self.command_buffers == self_t.command_buffers,
                    self.swap_chains == self_t.swap_chains,
                    self.trackers == self_t.trackers,
                    self.pending_writes == self_t.pending_writes,
                    self.life_tracker == self_t.life_tracker,
                    self.submission_index == self_t.submission_index,
                    pre0.wf(),
                    submit_index == pre0.submission_index + 1,
                    forall|a: int, b: int| 0 <= a < b < tex_used@.len() ==> tex_used@[a] != tex_used@[b],
                    forall|tid: u64|
                        tex_used@.contains(tid) == uses_id(cmb0.texture_uses.uses@, tid),
                    forall|a: int|
                        0 <= a < tex_used@.len() ==> pre0.textures@.contains_key(
                            #[trigger] tex_used@[a],
                        ),
                    self.textures.wf(),
                    self.textures@.dom() == pre0.textures@.dom(),
                    forall|tid: u64|
                        #[trigger] self.textures@.contains_key(tid)
                            ==> self.textures@[tid].life_guard.ref_count
                            == pre0.textures@[tid].life_guard.ref_count && (if texture_used_in(
                            pre0,
                            ids.take(k2),
                            tid,
                        ) || (exists|a: int| 0 <= a < m && #[trigger] tex_used@[a] == tid) {
                            self.textures@[tid].life_guard.last_use == submit_index
                        } else {
                            self.textures@[tid] == pre0.textures@[tid]
                        }),
                    forall|tid: u64|
                        #[trigger] suspected_textures@.contains(tid) == ((texture_used_in(
                            pre0,
                            ids.take(k2),
                            tid,
                        ) || (exists|a: int| 0 <= a < m && #[trigger] tex_used@[a] == tid))
                            && pre0.textures@[tid].life_guard.ref_count == 0),
                decreases tex_used@.len() - m,
            {
                let tid = tex_used[m];
                proof {
                    assert(tex_used@[m as int] == tid);
                    assert(pre0.textures@.contains_key(tid));
                }
                let ghost texs_m = self.textures@;
                let ghost susp_t_m = suspected_textures@;
                let refd = {
                    let t = self.textures.get_mut(tid);
                    t.life_guard.use_at(submit_index)
                };
                let already = vec_contains(suspected_textures, tid);
                if !refd && !already {
                    suspected_textures.push(tid);
                }
                proof {
                    assert forall|o: u64|
                        #[trigger] self.textures@.contains_key(o) implies self.textures@[o].life_guard.ref_count
                        == pre0.textures@[o].life_guard.ref_count && (if texture_used_in(
                        pre0,
                        ids.take(k2),
                        o,
                    ) || (exists|a: int| 0 <= a < m + 1 && #[trigger] tex_used@[a] == o) {
                        self.textures@[o].life_guard.last_use == submit_index
                    } else {
                        self.textures@[o] == pre0.textures@[o]
                    }) by {
                        if o != tid {
                            assert(self.textures@[o] == texs_m[o]);
                            if exists|a: int| 0 <= a < m + 1 && #[trigger] tex_used@[a] == o {
                                let a = choose|a: int| 0 <= a < m + 1 && #[trigger] tex_used@[a] == o;
                                assert(a < m);
                            }
                        }
                    }
                    assert forall|o: u64|
                        #[trigger] suspected_textures@.contains(o) == ((texture_used_in(
                            pre0,
                            ids.take(k2),
                            o,
                        ) || (exists|a: int| 0 <= a < m + 1 && #[trigger] tex_used@[a] == o))
                            && pre0.textures@[o].life_guard.ref_count == 0) by {
                        if !refd && !already {
                            lemma_contains_push(susp_t_m, tid, o);
                        }
                        if o == tid {
                            assert(tex_used@[m as int] == o);
                            assert(self.textures@[tid].life_guard.ref_count
                                == pre0.textures@[tid].life_guard.ref_count);
                        } else {
                            if exists|a: int| 0 <= a < m + 1 && #[trigger] tex_used@[a] == o {
                                let a = choose|a: int| 0 <= a < m + 1 && #[trigger] tex_used@[a] == o;
                                assert(a < m);
                            }
                        }
                    }
                }
                m = m + 1;
            }
            proof {
                assert forall|tid: u64|
                    (texture_used_in(pre0, ids.take(k2), tid) || (exists|a: int|
                        0 <= a < tex_used@.len() && #[trigger] tex_used@[a] == tid))
                        == texture_used_in(pre0, ids.take(k2 + 1), tid) by {
                    lemma_texture_used_in_push(pre0, ids.take(k2), c, tid);
                    assert(tex_used@.contains(tid) == uses_id(cmb0.texture_uses.uses@, tid)) by {
                        if exists|a: int| 0 <= a < tex_used@.len() && #[trigger] tex_used@[a] == tid {
                            let a = choose|a: int|
                                0 <= a < tex_used@.len() && #[trigger] tex_used@[a] == tid;
                            assert(tex_used@[a] == tid);
                        }
                    }
                    if tex_used@.contains(tid) {
                        let a = choose|a: int| 0 <= a < tex_used@.len() && tex_used@[a] == tid;
                        assert(tex_used@[a] == tid);
                    }
                }
            }

            self.command_buffers.remove(c);
            proof {
                assert forall|o: u64|
                    #[trigger] self.command_buffers@.contains_key(o) == (
                    pre0.command_buffers@.contains_key(o) && !ids.take(k2 + 1).contains(o)) by {
                    lemma_contains_push(ids.take(k2), c, o);
                }
                assert forall|bid: u64|
                    #[trigger] warnings@.contains(bid) == (buffer_used_in(
                        pre0,
                        ids.take(k2 + 1),
                        bid,
                    ) && pre0.buffers@[bid].map_state is Waiting) by {
                    lemma_buffer_used_in_push(pre0, ids.take(k2), c, bid);
                }
                assert forall|bid: u64|
                    #[trigger] suspected_buffers@.contains(bid) == (buffer_used_in(
                        pre0,
                        ids.take(k2 + 1),
                        bid,
                    ) && pre0.buffers@[bid].life_guard.ref_count == 0) by {
                    lemma_buffer_used_in_push(pre0, ids.take(k2), c, bid);
                }
            }
        proof {
            assert(submit_loop_inv(
                pre0,
                ids,
                k2 + 1,
                *self,
                commands@,
                signal_list_view(*signal),
                warnings@,
                suspected_buffers@,
                suspected_textures@,
                submit_index,
            ));
        }
    }

    /// Turns the named command buffers, in order, into one hardware queue
    /// submission: the deferred write commands go first, then, per command
    /// buffer, exactly the barriers needed to enter its expected states
    /// followed by its own recorded commands. Resource lifetimes advance to
    /// the new submission index, newly unreferenced resources become
    /// suspected, and the submission is registered with an unsignaled fence
    /// at the tail of the in-flight queue. A closing non-blocking
    /// maintenance pass reaps already-completed older submissions; its
    /// callbacks are returned for the caller to fire outside all locks.
    ///
    /// Succeeds exactly when every named command buffer exists, none is
    /// duplicated, used surfaces still hold their acquired output, used
    /// buffers and textures exist, and no used buffer is actively
    /// host-mapped: such faults are fatal, and the device is unchanged. A
    /// used buffer whose mapping is still pending is silently unmapped
    /// instead, and reported as a warning.
    #[verifier::loop_isolation(false)]
    #[verifier::rlimit(100)]
    #[verifier::spinoff_prover]
    pub fn queue_submit(&mut self, command_buffer_ids: &Vec<u64>) -> (r: Result<
        SubmitOutput,
        SubmitError,
    >)
        requires
            old(self).wf(),
            old(self).submission_index < u64::MAX,
            forall|sc: u64|
                #[trigger] old(self).swap_chains@.contains_key(sc) ==> old(self).swap_chains@[sc].acquired_framebuffers + command_buffer_ids@.len() <= u64::MAX,
        ensures
            final(self).wf(),
            (r is Ok) == submit_ok(*old(self), command_buffer_ids@),
            r matches Err(e) ==> *final(self) == *old(self) && submit_fault_witness(
                *old(self),
                command_buffer_ids@,
                e,
            ),
            r matches Ok(out) ==> submit_post(*old(self), *final(self), command_buffer_ids@, out),
    {
        let ids = command_buffer_ids;
        // Validation: find any caller-contract violation before touching
        // anything, so a fatal fault leaves the device unchanged.
        match self.validate_submission(ids) {
            Some(e) => {
                return Err(e);
            },
            None => {},
        }

        let ghost pre0 = *old(self);
        let ghost pw = pre0.pending_writes.command_buffer.commands();
        let submit_index = self.submission_index + 1;
        self.submission_index = submit_index;
        let taken = self.pending_writes.take_commands();
        let mut commands: Vec<Command> = match taken {
            DeferredCommands::Empty => Vec::new(),
            DeferredCommands::Open(c) => c,
        };
        let ghost pw_len = pw.len() as int;
        let mut signal = signal_list_new();
        let mut warnings: Vec<u64> = Vec::new();
        let mut suspected_buffers: Vec<u64> = Vec::new();
        let mut suspected_textures: Vec<u64> = Vec::new();

        proof {
            assert(ids@.take(0) =~= Seq::<u64>::empty());
            assert(taken == pre0.pending_writes.command_buffer);
            assert(commands@ == pw);
            assert(commands@.take(pw.len() as int) =~= pw);
            assert(submit_loop_inv(
                pre0,
                ids@,
                0,
                *self,
                commands@,
                signal_list_view(signal),
                warnings@,
                suspected_buffers@,
                suspected_textures@,
                submit_index,
            ));
        }
        let mut k2: usize = 0;
        while k2 < ids.len()
            invariant
                k2 <= ids@.len(),
                submit_loop_inv(
                    pre0,
                    ids@,
                    k2 as int,
                    *self,
                    commands@,
                    signal_list_view(signal),
                    warnings@,
                    suspected_buffers@,
                    suspected_textures@,
                    submit_index,
                ),
            decreases ids@.len() - k2,
        {
            let c = ids[k2];
            self.submit_one(
                c,
                submit_index,
                &mut commands,
                &mut signal,
                &mut warnings,
                &mut suspected_buffers,
                &mut suspected_textures,
                Ghost(pre0),
                Ghost(ids@),
                Ghost(k2 as int),
            );
            k2 = k2 + 1;
        }
        proof {
            assert(ids@.take(k2 as int) =~= ids@);
        }

        let temps = self.pending_writes.take_staging();
        let record = SubmissionRecord {
            index: submit_index,
            fence_signaled: false,
            commands,
            signal_swap_chains: signal_list_to_vec(&signal),
            suspected_buffers,
            suspected_textures,
            temp_buffers: temps,
        };
        proof {
            assert forall|i: int|
                0 <= i < self.life_tracker.records@.len() implies (
            #[trigger] self.life_tracker.records@[i]).index < record.index by {
                assert(pre0.life_tracker.records@[i].index <= pre0.submission_index);
            }
        }
        self.life_tracker.track_submission(record);

        let ghost mid = *self;
        proof {
            assert(mid.life_tracker.records@.drop_last() =~= pre0.life_tracker.records@);
            assert(mid.life_tracker.records@.last() == record);
            if ids@.len() == 0 {
                assert(record.signal_swap_chains@ =~= Seq::<u64>::empty()) by {
                    if record.signal_swap_chains@.len() > 0 {
                        assert(record.signal_swap_chains@.contains(record.signal_swap_chains@[0]));
                    }
                }
            }
            assert(temps_bytes(record.temp_buffers@) == temps_bytes(
                pre0.pending_writes.temp_buffers@,
            ));
            assert(submit_issued(pre0, mid, ids@, warnings@));
            assert(mid.wf()) by {
                assert forall|i: int|
                    0 <= i < mid.life_tracker.records@.len() implies (
                #[trigger] mid.life_tracker.records@[i]).index <= mid.submission_index by {
                    if i < mid.life_tracker.records@.len() - 1 {
                        assert(mid.life_tracker.records@[i] == pre0.life_tracker.records@[i]);
                    }
                }
            }
        }
        let maintain = self.reap_completed();
        let ghost post = *self;
        let ghost warnings_g = warnings@;
        let out = SubmitOutput { index: submit_index, warnings, maintain };
        proof {
            let p = mid.life_tracker.records@.len() - post.life_tracker.records@.len();
            assert(reap_step_at(mid, post, maintain, p));
            assert(p < mid.life_tracker.records@.len()) by {
                if p == mid.life_tracker.records@.len() {
                    assert(mid.life_tracker.records@[p - 1].fence_signaled);
                    assert(mid.life_tracker.records@.last() == record);
                }
            }
            assert(post.life_tracker.records@.len() >= 1);
            assert(post.life_tracker.records@.last() == mid.life_tracker.records@.last()) by {
                assert(post.life_tracker.records@ == mid.life_tracker.records@.skip(p));
            }
            assert(pre0 == *old(self));
            assert(out.warnings@ == warnings_g);
            assert(out.maintain == maintain);
            assert(submit_issued(pre0, mid, ids@, out.warnings@));
            assert(reap_step(mid, post, out.maintain));
            assert(exists|m2: Device|
                #[trigger] submit_issued(pre0, m2, ids@, out.warnings@)
                    && reap_step(m2, post, out.maintain)) by {
                assert(submit_issued(pre0, mid, ids@, out.warnings@)
                    && reap_step(mid, post, out.maintain));
            }
            assert(post.submission_index == mid.submission_index);
            assert(submit_post(pre0, post, ids@, out));
        }
        Ok(out)
    }
}

/// Repeated maintenance is idempotent: once a poll has run, the head of
/// the in-flight queue (if any) is an incomplete submission, and a further
/// poll with no new submissions and no new hardware progress reaps nothing,
/// changes no resource, and produces no output.
pub proof fn lemma_maintain_idempotent(d1: Device, d2: Device, out2: MaintainResult)
    requires
        d1.life_tracker.records@.len() > 0 ==> !d1.life_tracker.records@[0].fence_signaled,
        reap_step(d1, d2, out2),
    ensures
        d2.buffers@ == d1.buffers@,
        d2.textures@ == d1.textures@,
        d2.life_tracker.records@ == d1.life_tracker.records@,
        d2.command_buffers == d1.command_buffers,
        d2.swap_chains == d1.swap_chains,
        d2.pending_writes == d1.pending_writes,
        d2.submission_index == d1.submission_index,
        out2.freed_staging@.len() == 0,
        out2.destroyed_buffers@.len() == 0,
        out2.destroyed_textures@.len() == 0,
        out2.callbacks@.len() == 0,
{
    let p = choose|p: int| reap_step_at(d1, d2, out2, p);
    assert(p == 0) by {
        if p > 0 {
            assert(d1.life_tracker.records@[0].fence_signaled);
        }
    }
    let recs = d1.life_tracker.records@.take(0);
    assert(recs =~= Seq::<SubmissionRecord>::empty());
    assert(d2.life_tracker.records@ =~= d1.life_tracker.records@);
    assert(out2.freed_staging@ == concat_temps(recs));
    assert forall|id: u64| #[trigger] d1.buffers@.contains_key(id) implies d2.buffers@.contains_key(id) by {
        if !d2.buffers@.contains_key(id) {
            let k = choose|k: int|
                0 <= k < recs.len() && (#[trigger] recs[k]).suspected_buffers@.contains(id)
                    && d1.buffers@[id].life_guard.last_use <= recs[k].index;
        }
    }
    assert forall|id: u64| #[trigger] d2.buffers@.contains_key(id) implies d2.buffers@[id]
        == d1.buffers@[id] by {
        if d2.buffers@[id].map_state != d1.buffers@[id].map_state {
            let k = choose|k: int|
                0 <= k < recs.len() && d1.buffers@[id].life_guard.last_use <= (
                #[trigger] recs[k]).index;
        }
    }
    assert(d2.buffers@ =~= d1.buffers@);
    assert forall|id: u64| #[trigger] d1.textures@.contains_key(id) implies d2.textures@.contains_key(
        id,
    ) by {
        if !d2.textures@.contains_key(id) {
            let k = choose|k: int|
                0 <= k < recs.len() && (#[trigger] recs[k]).suspected_textures@.contains(id)
                    && d1.textures@[id].life_guard.last_use <= recs[k].index;
        }
    }
    assert(d2.textures@ =~= d1.textures@);
    assert(out2.destroyed_buffers@.len() == 0) by {
        if out2.destroyed_buffers@.len() > 0 {
            assert(out2.destroyed_buffers@.contains(out2.destroyed_buffers@[0]));
        }
    }
    assert(out2.destroyed_textures@.len() == 0) by {
        if out2.destroyed_textures@.len() > 0 {
            assert(out2.destroyed_textures@.contains(out2.destroyed_textures@[0]));
        }
    }
    assert(out2.callbacks@.len() == 0) by {
        if out2.callbacks@.len() > 0 {
            let id = out2.callbacks@[0];
            assert(out2.callbacks@.contains(id));
            let k = choose|k: int|
                0 <= k < recs.len() && d1.buffers@[id].life_guard.last_use <= (
                #[trigger] recs[k]).index;
        }
    }
}

} // verus!
