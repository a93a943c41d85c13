use gpu_queue::Command;
use gpu_queue::CommandBuffer;
use gpu_queue::Device;
use gpu_queue::MapState;
use gpu_queue::SubmitError;
use gpu_queue::UsageScope;
use gpu_queue::WriteError;
use gpu_queue::resource::USAGE_COPY_DST;
use gpu_queue::resource::USAGE_COPY_SRC;
use gpu_queue::resource::USAGE_MAP_READ;
use gpu_queue::resource::USAGE_VERTEX;
use gpu_queue::track::USE_COPY_SRC;
use gpu_queue::track::USE_VERTEX;

fn cmb_using_buffers(uses: &[(u64, u32)]) -> CommandBuffer {
    let mut scope = UsageScope::new();
    for &(id, state) in uses {
        scope.record(id, state);
    }
    CommandBuffer {
        buffer_uses: scope,
        texture_uses: UsageScope::new(),
        used_swap_chain: None,
    }
}

#[test]
fn write_records_copy_and_staging() {
    let mut d = Device::new();
    d.create_buffer(1, USAGE_COPY_DST, 8);
    let data = vec![7u8, 8, 9];
    d.queue_write_buffer(1, 2, &data).unwrap();
    assert_eq!(d.pending_writes.temp_buffers.len(), 1);
    assert_eq!(d.pending_writes.temp_buffers[0].bytes, data);
    // the destination belongs to the next submission now
    assert_eq!(d.buffers.get(1).unwrap().life_guard.last_use, 1);
}

#[test]
fn write_unknown_buffer_fails() {
    let mut d = Device::new();
    let r = d.queue_write_buffer(5, 0, &vec![1u8]);
    assert_eq!(r, Err(WriteError::UnknownBuffer(5)));
}

#[test]
fn write_without_copy_dst_fails() {
    let mut d = Device::new();
    d.create_buffer(1, USAGE_VERTEX, 8);
    let r = d.queue_write_buffer(1, 0, &vec![1u8]);
    assert_eq!(r, Err(WriteError::MissingCopyDstUsage(1)));
}

#[test]
fn write_out_of_bounds_fails() {
    let mut d = Device::new();
    d.create_buffer(1, USAGE_COPY_DST, 4);
    let r = d.queue_write_buffer(1, 2, &vec![1u8, 2, 3]);
    assert_eq!(r, Err(WriteError::DestinationOutOfBounds(1)));
}

#[test]
fn three_disjoint_writes_then_empty_submit() {
    let mut d = Device::new();
    d.create_buffer(1, USAGE_COPY_DST, 12);
    d.queue_write_buffer(1, 0, &vec![1u8, 2, 3, 4]).unwrap();
    d.queue_write_buffer(1, 4, &vec![5u8, 6, 7, 8]).unwrap();
    d.queue_write_buffer(1, 8, &vec![9u8, 10, 11, 12]).unwrap();
    let out = d.queue_submit(&vec![]).unwrap();
    assert_eq!(out.index, 1);
    // nothing completed yet: the staging buffers are still owned by the record
    assert!(out.maintain.freed_staging.is_empty());
    assert_eq!(d.life_tracker.records.len(), 1);
    assert_eq!(d.life_tracker.records[0].temp_buffers.len(), 3);
    assert_eq!(d.buffers.get(1).unwrap().contents, vec![0u8; 12]);

    assert!(d.complete_oldest());
    assert_eq!(
        d.buffers.get(1).unwrap().contents,
        vec![1u8, 2, 3, 4, 5, 6, 7, 8, 9, 10, 11, 12]
    );
    let m = d.maintain(false);
    assert_eq!(m.freed_staging.len(), 3);
    assert!(d.life_tracker.records.is_empty());
}

#[test]
fn round_trip_matches_direct_write() {
    let mut d = Device::new();
    d.create_buffer(1, USAGE_COPY_DST, 6);
    d.queue_write_buffer(1, 1, &vec![0xaau8, 0xbb, 0xcc]).unwrap();
    d.queue_submit(&vec![]).unwrap();
    d.complete_oldest();
    let mut direct = vec![0u8; 6];
    direct[1] = 0xaa;
    direct[2] = 0xbb;
    direct[3] = 0xcc;
    assert_eq!(d.buffers.get(1).unwrap().contents, direct);
}

#[test]
fn maintain_with_no_progress_changes_nothing() {
    let mut d = Device::new();
    d.create_buffer(1, USAGE_COPY_DST, 4);
    d.queue_write_buffer(1, 0, &vec![1u8]).unwrap();
    d.queue_submit(&vec![]).unwrap();
    let m1 = d.maintain(false);
    assert!(m1.freed_staging.is_empty());
    let m2 = d.maintain(false);
    assert!(m2.freed_staging.is_empty());
    assert!(m2.destroyed_buffers.is_empty());
    assert!(m2.callbacks.is_empty());
    assert_eq!(d.life_tracker.records.len(), 1);
}

#[test]
fn submit_actively_mapped_buffer_fails() {
    let mut d = Device::new();
    d.create_buffer(1, USAGE_COPY_DST | USAGE_MAP_READ, 4);
    d.request_mapping(1);
    // an empty submission completes, which resolves the mapping request
    d.queue_submit(&vec![]).unwrap();
    d.complete_oldest();
    let m = d.maintain(false);
    assert_eq!(m.callbacks, vec![1]);
    assert_eq!(d.buffers.get(1).unwrap().map_state, MapState::Active);

    d.register_command_buffer(10, cmb_using_buffers(&[(1, USE_COPY_SRC)]));
    let before_index = d.submission_index;
    let before_records = d.life_tracker.records.len();
    let r = d.queue_submit(&vec![10]);
    assert_eq!(r.err().unwrap(), SubmitError::BufferStillMapped(1));
    // fails fatally before any hardware submission
    assert_eq!(d.submission_index, before_index);
    assert_eq!(d.life_tracker.records.len(), before_records);
}

#[test]
fn dropped_buffer_with_pending_map_is_unmapped() {
    let mut d = Device::new();
    d.create_buffer(1, USAGE_COPY_DST | USAGE_MAP_READ, 4);
    d.request_mapping(1);
    d.drop_buffer(1);
    d.register_command_buffer(10, cmb_using_buffers(&[(1, USE_COPY_SRC)]));
    let out = d.queue_submit(&vec![10]).unwrap();
    // silently unmapped, with a diagnostic warning, and no crash
    assert_eq!(out.warnings, vec![1]);
    assert_eq!(d.buffers.get(1).unwrap().map_state, MapState::Idle);
    assert_eq!(d.life_tracker.records[0].suspected_buffers, vec![1]);

    d.complete_oldest();
    let m = d.maintain(false);
    assert_eq!(m.destroyed_buffers, vec![1]);
    assert!(d.buffers.get(1).is_none());
}

#[test]
fn no_barrier_between_consecutive_same_state_uses() {
    let mut d = Device::new();
    d.create_buffer(1, USAGE_COPY_SRC, 4);
    d.register_command_buffer(10, cmb_using_buffers(&[(1, USE_COPY_SRC)]));
    d.register_command_buffer(11, cmb_using_buffers(&[(1, USE_COPY_SRC)]));
    d.queue_submit(&vec![10, 11]).unwrap();
    let commands = &d.life_tracker.records[0].commands;
    let transitions: Vec<&Command> = commands
        .iter()
        .filter(|c| matches!(c, Command::Transition { .. }))
        .collect();
    // one barrier moves the buffer into its first state; the second command
    // buffer leaves it untouched, so no barrier stands between them
    assert_eq!(transitions.len(), 1);
    assert_eq!(
        *transitions[0],
        Command::Transition { id: 1, from_state: 0, to_state: USE_COPY_SRC }
    );
}

#[test]
fn barrier_emitted_on_state_change() {
    let mut d = Device::new();
    d.create_buffer(1, USAGE_COPY_SRC | USAGE_VERTEX, 4);
    d.register_command_buffer(10, cmb_using_buffers(&[(1, USE_COPY_SRC)]));
    d.register_command_buffer(11, cmb_using_buffers(&[(1, USE_VERTEX)]));
    d.queue_submit(&vec![10, 11]).unwrap();
    let commands = &d.life_tracker.records[0].commands;
    let transitions: Vec<&Command> = commands
        .iter()
        .filter(|c| matches!(c, Command::Transition { .. }))
        .collect();
    assert_eq!(transitions.len(), 2);
    assert_eq!(
        *transitions[1],
        Command::Transition { id: 1, from_state: USE_COPY_SRC, to_state: USE_VERTEX }
    );
}

#[test]
fn swap_chain_signal_recorded_once() {
    let mut d = Device::new();
    d.create_swap_chain(7, true);
    let mut cmb = cmb_using_buffers(&[]);
    cmb.used_swap_chain = Some(7);
    d.register_command_buffer(10, cmb);
    let mut cmb2 = cmb_using_buffers(&[]);
    cmb2.used_swap_chain = Some(7);
    d.register_command_buffer(11, cmb2);
    d.queue_submit(&vec![10, 11]).unwrap();
    // only the first frame of a surface with no pending presentations
    // records a ready signal
    assert_eq!(d.life_tracker.records[0].signal_swap_chains, vec![7]);
    assert_eq!(d.swap_chains.get(7).unwrap().acquired_framebuffers, 2);
}

#[test]
fn swap_chain_without_acquired_output_fails() {
    let mut d = Device::new();
    d.create_swap_chain(7, false);
    let mut cmb = cmb_using_buffers(&[]);
    cmb.used_swap_chain = Some(7);
    d.register_command_buffer(10, cmb);
    let r = d.queue_submit(&vec![10]);
    assert_eq!(r.err().unwrap(), SubmitError::SwapChainOutputDropped(7));
}

#[test]
fn submit_unknown_command_buffer_fails() {
    let mut d = Device::new();
    let r = d.queue_submit(&vec![42]);
    assert_eq!(r.err().unwrap(), SubmitError::UnknownCommandBuffer(42));
}

#[test]
fn submit_duplicate_command_buffer_fails() {
    let mut d = Device::new();
    d.register_command_buffer(10, cmb_using_buffers(&[]));
    let r = d.queue_submit(&vec![10, 10]);
    assert_eq!(r.err().unwrap(), SubmitError::DuplicateCommandBuffer(10));
}

#[test]
fn submit_unknown_texture_fails() {
    let mut d = Device::new();
    let mut cmb = cmb_using_buffers(&[]);
    cmb.texture_uses.record(3, 0);
    d.register_command_buffer(10, cmb);
    let r = d.queue_submit(&vec![10]);
    assert_eq!(r.err().unwrap(), SubmitError::UnknownTexture(3));
}

#[test]
fn fifo_reaping_across_submissions() {
    let mut d = Device::new();
    d.create_buffer(1, USAGE_COPY_DST, 4);
    d.queue_write_buffer(1, 0, &vec![1u8]).unwrap();
    d.queue_submit(&vec![]).unwrap();
    d.queue_write_buffer(1, 1, &vec![2u8]).unwrap();
    d.queue_submit(&vec![]).unwrap();
    assert_eq!(d.life_tracker.records.len(), 2);

    // only the first submission completes; only its staging memory is freed
    assert!(d.complete_oldest());
    let m1 = d.maintain(false);
    assert_eq!(m1.freed_staging.len(), 1);
    assert_eq!(m1.freed_staging[0].bytes, vec![1u8]);
    assert_eq!(d.life_tracker.records.len(), 1);
    assert_eq!(d.life_tracker.records[0].index, 2);

    assert!(d.complete_oldest());
    let m2 = d.maintain(false);
    assert_eq!(m2.freed_staging.len(), 1);
    assert_eq!(m2.freed_staging[0].bytes, vec![2u8]);
    assert!(d.life_tracker.records.is_empty());
}

#[test]
fn mapping_callback_fires_after_submission_completes() {
    let mut d = Device::new();
    d.create_buffer(1, USAGE_COPY_DST | USAGE_MAP_READ, 4);
    d.register_command_buffer(10, cmb_using_buffers(&[(1, USE_COPY_SRC)]));
    d.queue_submit(&vec![10]).unwrap();
    d.request_mapping(1);
    // not completed yet: the callback must not fire
    let m0 = d.maintain(false);
    assert!(m0.callbacks.is_empty());
    assert_eq!(d.buffers.get(1).unwrap().map_state, MapState::Waiting);

    d.complete_oldest();
    let m1 = d.maintain(false);
    assert_eq!(m1.callbacks, vec![1]);
    assert_eq!(d.buffers.get(1).unwrap().map_state, MapState::Active);
}

#[test]
fn unreferenced_texture_destroyed_after_completion() {
    let mut d = Device::new();
    d.create_texture(5);
    // the caller drops its reference before submitting
    d.textures.entries[0].1.life_guard.ref_count = 0;
    let mut cmb = cmb_using_buffers(&[]);
    cmb.texture_uses.record(5, 0);
    d.register_command_buffer(10, cmb);
    d.queue_submit(&vec![10]).unwrap();
    assert_eq!(d.life_tracker.records[0].suspected_textures, vec![5]);
    assert!(d.textures.get(5).is_some());

    d.complete_oldest();
    let m = d.maintain(false);
    assert_eq!(m.destroyed_textures, vec![5]);
    assert!(d.textures.get(5).is_none());
}
