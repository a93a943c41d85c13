//! Hardware commands and the byte model of their execution.
//!
//! A submission hands the hardware queue a flat sequence of [`Command`]s.
//! Only staging copies change buffer contents in this model; barriers and
//! the replay of a command buffer's own recorded work are synchronization
//! and drawing, not byte transfers.

use vstd::prelude::*;
use crate::resource::Buffer;
use crate::storage::Storage;

verus! {

/// A temporary host-visible staging buffer, sized exactly to the data it
/// shuttles; owned by its submission record until the fence signals.
pub struct StagingBuffer {
    pub bytes: Vec<u8>,
}

/// One hardware command of a submission.
#[derive(Debug, Clone, Copy, PartialEq, Eq, Structural)]
pub enum Command {
    /// Synchronize resource `id` between two usage states.
    Transition { id: u64, from_state: u32, to_state: u32 },
    /// Make host writes to the submission's staging buffer `staging`
    /// visible to transfer reads.
    StagingBarrier { staging: usize },
    /// Copy the whole staging buffer `staging` of the submission into the
    /// destination buffer `dst` at byte offset `dst_offset`.
    CopyFromStaging { staging: usize, dst: u64, dst_offset: u64 },
    /// Replay the commands recorded into command buffer `cmb`.
    RunCommandBuffer { cmb: u64 },
}

/// `dst` with `data` overlaid at byte offset `off`; the length never
/// changes.
pub open spec fn write_bytes(dst: Seq<u8>, off: int, data: Seq<u8>) -> Seq<u8> {
    Seq::new(
        dst.len(),
        |i: int|
            if off <= i < off + data.len() {
                data[i - off]
            } else {
                dst[i]
            },
    )
}

/// The bytes of each staging buffer.
pub open spec fn temps_bytes(temps: Seq<StagingBuffer>) -> Seq<Seq<u8>> {
    temps.map_values(|t: StagingBuffer| t.bytes@)
}

/// The byte contents of each buffer of a storage.
pub open spec fn contents_of(bufs: Map<u64, Buffer>) -> Map<u64, Seq<u8>> {
    Map::new(|id: u64| bufs.contains_key(id), |id: u64| bufs[id].contents@)
}

/// Effect of one command on buffer contents: a staging copy that names a
/// live destination and stays in bounds overlays the staging bytes; every
/// other command leaves contents alone.
pub open spec fn apply_command(mem: Map<u64, Seq<u8>>, c: Command, temps: Seq<Seq<u8>>) -> Map<
    u64,
    Seq<u8>,
> {
    match c {
        Command::CopyFromStaging { staging, dst, dst_offset } => {
            if mem.contains_key(dst) && staging < temps.len() && dst_offset + temps[
                staging as int
            ].len() <= mem[dst].len() {
                mem.insert(dst, write_bytes(mem[dst], dst_offset as int, temps[staging as int]))
            } else {
                mem
            }
        },
        _ => mem,
    }
}

/// Effect of a command sequence, first to last.
pub open spec fn apply_commands(mem: Map<u64, Seq<u8>>, cmds: Seq<Command>, temps: Seq<Seq<u8>>) -> Map<
    u64,
    Seq<u8>,
>
    decreases cmds.len(),
{
    if cmds.len() == 0 {
        mem
    } else {
        apply_command(apply_commands(mem, cmds.drop_last(), temps), cmds.last(), temps)
    }
}

/// Commands that move no bytes leave every buffer's contents alone.
pub proof fn lemma_apply_commands_no_copies(mem: Map<u64, Seq<u8>>, cmds: Seq<Command>, temps: Seq<Seq<u8>>)
    requires
        forall|j: int| 0 <= j < cmds.len() ==> !(cmds[j] is CopyFromStaging),
    ensures
        apply_commands(mem, cmds, temps) == mem,
    decreases cmds.len(),
{
    if cmds.len() > 0 {
        assert(cmds[cmds.len() - 1] == cmds.last());
        lemma_apply_commands_no_copies(mem, cmds.drop_last(), temps);
    }
}

/// Copies `data` into `dst` at offset `off`.
pub fn copy_into(dst: &mut Vec<u8>, off: usize, data: &Vec<u8>)
    requires
        off + data@.len() <= old(dst)@.len(),
    ensures
        final(dst)@ == write_bytes(old(dst)@, off as int, data@),
{
    let ghost dst0 = dst@;
    let n = dst.len();
    let mut j: usize = 0;
    while j < data.len()
        invariant
            off + data@.len() <= dst@.len(),
            dst@.len() == n,
            j <= data@.len(),
            dst@.len() == dst0.len(),
            forall|i: int| 0 <= i < off ==> dst@[i] == dst0[i],
            forall|i: int| off + j <= i < dst@.len() ==> dst@[i] == dst0[i],
            forall|i: int| off <= i < off + j ==> dst@[i] == data@[i - off],
        decreases data@.len() - j,
    {
        let r = &mut dst[off + j];
        *r = data[j];
        j = j + 1;
    }
    proof {
        assert(dst@ =~= write_bytes(dst0, off as int, data@));
    }
}

/// Clones a byte vector.
pub fn clone_bytes(v: &Vec<u8>) -> (r: Vec<u8>)
    ensures
        r@ == v@,
{
    let mut r: Vec<u8> = Vec::new();
    let mut i: usize = 0;
    while i < v.len()
        invariant
            i <= v@.len(),
            r@ == v@.take(i as int),
        decreases v@.len() - i,
    {
        r.push(v[i]);
        proof {
            assert(v@.take(i as int).push(v@[i as int]) =~= v@.take(i as int + 1));
        }
        i = i + 1;
    }
    proof {
        assert(v@.take(i as int) =~= v@);
    }
    r
}

/// Runs a submission's commands against the buffer storage: the hardware
/// model. Only in-bounds staging copies into live buffers move bytes; every
/// other field of every buffer is untouched.
pub fn execute_commands(bufs: &mut Storage<Buffer>, cmds: &Vec<Command>, temps: &Vec<StagingBuffer>)
    requires
        old(bufs).wf(),
    ensures
        final(bufs).wf(),
        final(bufs)@.dom() == old(bufs)@.dom(),
        contents_of(final(bufs)@) == apply_commands(
            contents_of(old(bufs)@),
            cmds@,
            temps_bytes(temps@),
        ),
        forall|id: u64|
            #[trigger] final(bufs)@.contains_key(id) ==> final(bufs)@[id].usage
                == old(bufs)@[id].usage && final(bufs)@[id].map_state == old(bufs)@[id].map_state
                && final(bufs)@[id].life_guard == old(bufs)@[id].life_guard,
    {
        let ghost bufs0 = bufs@;
        let mut k: usize = 0;
        while k < cmds.len()
            invariant
                k <= cmds@.len(),
                bufs.wf(),
                bufs@.dom() == bufs0.dom(),
                contents_of(bufs@) == apply_commands(
                    contents_of(bufs0),
                    cmds@.take(k as int),
                    temps_bytes(temps@),
                ),
                forall|id: u64|
                    #[trigger] bufs@.contains_key(id) ==> bufs@[id].usage == bufs0[id].usage
                        && bufs@[id].map_state == bufs0[id].map_state && bufs@[id].life_guard
                        == bufs0[id].life_guard,
            decreases cmds@.len() - k,
        {
            let ghost pre = bufs@;
            proof {
                assert(cmds@.take(k as int + 1).drop_last() =~= cmds@.take(k as int));
                assert(cmds@.take(k as int + 1).last() == cmds@[k as int]);
            }
            match cmds[k] {
                Command::CopyFromStaging { staging, dst, dst_offset } => {
                    let mut applies = false;
                    if staging < temps.len() && bufs.contains(dst) {
                        let blen = bufs.get(dst).unwrap().contents.len();
                        let dlen = temps[staging].bytes.len();
                        if dst_offset <= blen as u64 && dlen as u64 <= blen as u64 - dst_offset {
                            applies = true;
                            let b = bufs.get_mut(dst);
                            copy_into(&mut b.contents, dst_offset as usize, &temps[staging].bytes);
                        }
                    }
                    proof {
                        if applies {
                            assert(contents_of(bufs@) =~= apply_command(
                                contents_of(pre),
                                cmds@[k as int],
                                temps_bytes(temps@),
                            ));
                        } else {
                            assert(contents_of(bufs@) =~= apply_command(
                                contents_of(pre),
                                cmds@[k as int],
                                temps_bytes(temps@),
                            ));
                        }
                    }
                }
                _ => {
                    proof {
                        assert(contents_of(bufs@) =~= apply_command(
                            contents_of(pre),
                            cmds@[k as int],
                            temps_bytes(temps@),
                        ));
                    }
                }
            }
            k = k + 1;
        }
        proof {
            assert(cmds@.take(k as int) =~= cmds@);
        }
    }

/// Splitting a command sequence splits its effect.
pub proof fn lemma_apply_commands_append(
    mem: Map<u64, Seq<u8>>,
    a: Seq<Command>,
    b: Seq<Command>,
    temps: Seq<Seq<u8>>,
)
    ensures
        apply_commands(mem, a + b, temps) == apply_commands(apply_commands(mem, a, temps), b, temps),
    decreases b.len(),
{
    if b.len() == 0 {
        assert(a + b =~= a);
    } else {
        assert((a + b).drop_last() =~= a + b.drop_last());
        assert((a + b).last() == b.last());
        lemma_apply_commands_append(mem, a, b.drop_last(), temps);
    }
}

/// Round trip of the deferred write path: executing the commands one
/// deferred write records — its staging barrier, an optional transition and
/// the staging copy, appended to earlier commands — yields on the
/// destination exactly the bytes a direct write would: the staged data
/// overlaid at the requested offset.
pub proof fn lemma_deferred_write_round_trip(
    mem: Map<u64, Seq<u8>>,
    base: Seq<Command>,
    transition: Seq<Command>,
    n: usize,
    dst: u64,
    off: u64,
    data: Seq<u8>,
    temps: Seq<Seq<u8>>,
)
    requires
        n < temps.len(),
        temps[n as int] == data,
        forall|j: int| 0 <= j < transition.len() ==> !((#[trigger] transition[j]) is CopyFromStaging),
        apply_commands(mem, base, temps).contains_key(dst),
        off + data.len() <= apply_commands(mem, base, temps)[dst].len(),
    ensures
        apply_commands(
            mem,
            base + seq![(Command::StagingBarrier { staging: n })] + transition + seq![
                (Command::CopyFromStaging { staging: n as usize, dst, dst_offset: off }),
            ],
            temps,
        ) == apply_commands(mem, base, temps).insert(
            dst,
            write_bytes(apply_commands(mem, base, temps)[dst], off as int, data),
        ),
{
    let m1 = apply_commands(mem, base, temps);
    let sb = seq![(Command::StagingBarrier { staging: n })];
    let cp = seq![(Command::CopyFromStaging { staging: n, dst, dst_offset: off })];
    lemma_apply_commands_append(mem, base, sb, temps);
    assert(apply_commands(m1, sb, temps) == m1) by {
        lemma_apply_commands_no_copies(m1, sb, temps);
    }
    lemma_apply_commands_append(mem, base + sb, transition, temps);
    assert(apply_commands(mem, base + sb, temps) == m1);
    assert(apply_commands(m1, transition, temps) == m1) by {
        lemma_apply_commands_no_copies(m1, transition, temps);
    }
    lemma_apply_commands_append(mem, base + sb + transition, cp, temps);
    assert(apply_commands(mem, base + sb + transition, temps) == m1);
    assert(apply_commands(m1, cp, temps) == m1.insert(
        dst,
        write_bytes(m1[dst], off as int, data),
    )) by {
        assert(cp.drop_last() =~= Seq::<Command>::empty());
        assert(cp.last() == (Command::CopyFromStaging { staging: n, dst, dst_offset: off }));
        assert(apply_commands(m1, Seq::<Command>::empty(), temps) == m1);
        assert(apply_commands(m1, cp.drop_last(), temps) == m1);
        assert(apply_commands(m1, cp, temps) == apply_command(m1, cp.last(), temps));
    }
    assert(base + sb + transition + cp == (base + sb + transition) + cp);
}

} // verus!
