//! Deferred host-to-device writes.
//!
//! Small uploads between submissions accumulate here: each write copies its
//! data into a fresh staging buffer and records a copy command into one
//! shared deferred command buffer, opened lazily. At submit time the open
//! command buffer goes first into the hardware submission and the staging
//! buffers are handed to the submission record, which owns them until the
//! fence signals.

use vstd::prelude::*;
use crate::command::Command;
use crate::command::StagingBuffer;

verus! {

/// The deferred command buffer: absent, or open for recording.
pub enum DeferredCommands {
    /// No pending writes have been recorded since the last submission.
    Empty,
    /// A command buffer is open and holds the recorded commands.
    Open(Vec<Command>),
}

impl DeferredCommands {
    /// The recorded command sequence; empty when no buffer is open.
    pub open spec fn commands(self) -> Seq<Command> {
        match self {
            DeferredCommands::Empty => Seq::empty(),
            DeferredCommands::Open(c) => c@,
        }
    }
}

/// The accumulated deferred writes: the shared command buffer and the
/// staging buffers the recorded copies read from, in recording order. The
/// copy command recorded for staging buffer `i` names it by its index.
pub struct PendingWrites {
    pub command_buffer: DeferredCommands,
    pub temp_buffers: Vec<StagingBuffer>,
}

impl PendingWrites {
    /// No writes pending.
    pub fn new() -> (r: PendingWrites)
        ensures
            r.command_buffer is Empty,
            r.temp_buffers@ == Seq::<StagingBuffer>::empty(),
    {
        PendingWrites { command_buffer: DeferredCommands::Empty, temp_buffers: Vec::new() }
    }

    /// Appends one command, opening the deferred command buffer if none is
    /// open.
    pub fn push_command(&mut self, c: Command)
        ensures
            final(self).command_buffer is Open,
            final(self).command_buffer.commands() == old(self).command_buffer.commands().push(c),
            final(self).temp_buffers == old(self).temp_buffers,
    {
        let mut taken = DeferredCommands::Empty;
        core::mem::swap(&mut taken, &mut self.command_buffer);
        let mut cmds: Vec<Command> = match taken {
            DeferredCommands::Empty => Vec::new(),
            DeferredCommands::Open(c) => c,
        };
        cmds.push(c);
        self.command_buffer = DeferredCommands::Open(cmds);
    }

    /// Hands a fresh staging buffer over; the caller records the copy that
    /// reads it under the returned index.
    pub fn push_staging(&mut self, s: StagingBuffer) -> (idx: usize)
        ensures
            final(self).temp_buffers@ == old(self).temp_buffers@.push(s),
            final(self).command_buffer == old(self).command_buffer,
            idx == old(self).temp_buffers@.len(),
    {
        let idx = self.temp_buffers.len();
        self.temp_buffers.push(s);
        idx
    }

    /// Closes and takes the deferred command buffer for submission; no
    /// writes are pending afterwards.
    pub fn take_commands(&mut self) -> (r: DeferredCommands)
        ensures
            r == old(self).command_buffer,
            final(self).command_buffer is Empty,
            final(self).temp_buffers == old(self).temp_buffers,
    {
        let mut taken = DeferredCommands::Empty;
        core::mem::swap(&mut taken, &mut self.command_buffer);
        taken
    }

    /// Takes the staging buffers for hand-off to the submission record.
    pub fn take_staging(&mut self) -> (r: Vec<StagingBuffer>)
        ensures
            r == old(self).temp_buffers,
            final(self).temp_buffers@ == Seq::<StagingBuffer>::empty(),
            final(self).command_buffer == old(self).command_buffer,
    {
        let mut taken: Vec<StagingBuffer> = Vec::new();
        core::mem::swap(&mut taken, &mut self.temp_buffers);
        taken
    }

    /// Tears the pending writes down without submitting them: the open
    /// command buffer goes back to the command-buffer pool as discarded and
    /// the staging buffers go back to the memory allocator; the pair is
    /// returned to the caller, who owns those collaborators.
    pub fn dispose(self) -> (r: (DeferredCommands, Vec<StagingBuffer>))
        ensures
            r.0 == self.command_buffer,
            r.1 == self.temp_buffers,
    {
        (self.command_buffer, self.temp_buffers)
    }
}

} // verus!
