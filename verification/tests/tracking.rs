use gpu_queue::DeferredCommands;
use gpu_queue::Device;
use gpu_queue::LifeGuard;
use gpu_queue::PendingWrites;
use gpu_queue::LifeTracker;
use gpu_queue::SubmissionRecord;
use gpu_queue::Tracker;
use gpu_queue::UsageScope;
use gpu_queue::resource::USAGE_COPY_DST;
use gpu_queue::track::USE_COPY_DST;
use gpu_queue::track::USE_COPY_SRC;
use gpu_queue::track::USE_VERTEX;

fn record(index: u64, signaled: bool) -> SubmissionRecord {
    SubmissionRecord {
        index,
        fence_signaled: signaled,
        commands: Vec::new(),
        signal_swap_chains: Vec::new(),
        suspected_buffers: Vec::new(),
        suspected_textures: Vec::new(),
        temp_buffers: Vec::new(),
    }
}

#[test]
fn life_guard_last_use_is_monotone() {
    let mut g = LifeGuard::new();
    assert_eq!(g.ref_count, 1);
    assert_eq!(g.last_use, 0);
    assert!(g.use_at(3));
    assert_eq!(g.last_use, 3);
    assert!(g.use_at(5));
    assert_eq!(g.last_use, 5);
}

#[test]
fn life_guard_reports_missing_references() {
    let mut g = LifeGuard::new();
    g.ref_count = 0;
    assert!(!g.use_at(2));
    assert_eq!(g.last_use, 2);
}

#[test]
fn use_replace_reports_transition_only_on_change() {
    let mut t = Tracker::new();
    t.start_tracking(1, 0);
    assert_eq!(t.use_replace(1, USE_COPY_DST), Some((0, USE_COPY_DST)));
    assert_eq!(t.use_replace(1, USE_COPY_DST), None);
    assert_eq!(t.use_replace(1, USE_COPY_SRC), Some((USE_COPY_DST, USE_COPY_SRC)));
}

#[test]
fn optimize_coalesces_to_entry_and_exit_states() {
    let mut scope = UsageScope::new();
    scope.record(1, USE_COPY_DST);
    scope.record(2, USE_VERTEX);
    scope.record(1, USE_COPY_SRC);
    scope.record(1, USE_VERTEX);
    let opt = scope.optimize();
    assert_eq!(opt, vec![(1, USE_COPY_DST, USE_VERTEX), (2, USE_VERTEX, USE_VERTEX)]);
    assert_eq!(scope.used(), vec![1, 2]);
}

#[test]
fn insert_barriers_is_minimal() {
    let mut t = Tracker::new();
    t.start_tracking(1, USE_COPY_SRC);
    t.start_tracking(2, USE_VERTEX);
    // resource 1 already sits in the expected entry state: no barrier
    let barriers = t.insert_barriers(&vec![(1, USE_COPY_SRC, USE_COPY_DST), (2, USE_COPY_SRC, USE_COPY_SRC)]);
    assert_eq!(barriers.len(), 1);
    assert_eq!(barriers[0].id, 2);
    assert_eq!(barriers[0].from_state, USE_VERTEX);
    assert_eq!(barriers[0].to_state, USE_COPY_SRC);
}

#[test]
fn reap_takes_the_signaled_prefix_only() {
    let mut lt = LifeTracker::new();
    lt.track_submission(record(1, true));
    lt.track_submission(record(2, false));
    lt.track_submission(record(3, true));
    let reaped = lt.reap_signaled();
    // the third fence signaled first, but reaping never passes the second
    assert_eq!(reaped.len(), 1);
    assert_eq!(reaped[0].index, 1);
    assert_eq!(lt.records.len(), 2);
    assert_eq!(lt.records[0].index, 2);
}

#[test]
fn reap_stops_at_unsignaled_head() {
    let mut lt = LifeTracker::new();
    lt.track_submission(record(1, false));
    lt.track_submission(record(2, true));
    let reaped = lt.reap_signaled();
    assert!(reaped.is_empty());
    assert_eq!(lt.records.len(), 2);
}

#[test]
fn pending_writes_dispose_returns_everything() {
    let mut d = Device::new();
    d.create_buffer(1, USAGE_COPY_DST, 4);
    d.queue_write_buffer(1, 0, &vec![3u8, 4]).unwrap();
    let pending = std::mem::replace(&mut d.pending_writes, PendingWrites::new());
    let (discarded, staging) = pending.dispose();
    assert!(matches!(discarded, DeferredCommands::Open(_)));
    assert_eq!(staging.len(), 1);
    assert_eq!(staging[0].bytes, vec![3u8, 4]);
}
