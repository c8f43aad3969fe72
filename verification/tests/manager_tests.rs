use rude_core::engine::config::EngineConfig;
use rude_core::engine::manager::DownloadManager;
use rude_core::engine::budget::ConnectionBudget;
use rude_core::engine::chunk::ChunkMap;
use rude_core::engine::scheduler::{Found, SchedulerEvent};
use rude_core::engine::session::Session;
use rude_core::engine::task::{DownloadState, DownloadTask, TaskId, TaskOptions, Timestamp};
use rude_core::path::FilePath;

const NOW: Timestamp = Timestamp { secs: 100, nanos: 5 };

fn manager() -> DownloadManager {
    DownloadManager::new(EngineConfig::with_dirs(None, None))
}

fn id(s: &str) -> TaskId {
    TaskId(s.to_string())
}

fn add(m: &mut DownloadManager, gid: &str) -> TaskId {
    let urls = vec!["https://e.com/f".to_string()];
    m.add_as(id(gid), NOW, urls, TaskOptions::default()).unwrap()
}

fn state(m: &DownloadManager, gid: &str) -> DownloadState {
    m.get(&id(gid)).unwrap().state
}

#[test]
fn tasks_are_added_and_found() {
    let mut m = manager();
    let gid = m.add(vec!["https://e.com/f".to_string()], TaskOptions::default()).unwrap();
    assert_eq!(gid.0.len(), 36);
    let t = m.get(&gid).unwrap();
    assert_eq!(t.id, gid);
    assert_eq!(t.state, DownloadState::Queued);
    assert_eq!(m.list().len(), 1);
    assert!(m.get(&id("nobody")).is_none());
    assert_eq!(m.config().split, 8);
}

#[test]
fn a_url_is_required() {
    let mut m = manager();
    let e = m.add(vec![], TaskOptions::default()).unwrap_err();
    assert_eq!(e, "At least one URL required");
    assert!(m.list().is_empty());
}

#[test]
fn pausing_and_resuming() {
    let mut m = manager();
    add(&mut m, "a");
    assert_eq!(m.pause(&id("x")).unwrap_err(), "Task not found: x");
    assert_eq!(m.resume(&id("x")).unwrap_err(), "Task not found: x");
    m.pause(&id("a")).unwrap(); // queued: nothing to pause
    assert_eq!(state(&m, "a"), DownloadState::Queued);
    m.begin_at(&id("a"), NOW).unwrap();
    m.pause(&id("a")).unwrap();
    assert_eq!(state(&m, "a"), DownloadState::Paused);
    assert_eq!(m.resume(&id("a")), Ok(true));
    assert_eq!(state(&m, "a"), DownloadState::Queued);
    assert_eq!(m.resume(&id("a")), Ok(false));
}

#[test]
fn cancelled_tasks_are_gone() {
    let mut m = manager();
    add(&mut m, "a");
    add(&mut m, "b");
    let done = SchedulerEvent::Complete { output_path: FilePath::from_text("/dl/f") };
    m.on_event_at(&id("a"), done, NOW);
    assert_eq!(m.cancel(&id("a"), true), Some(FilePath::from_text("/dl/f")));
    assert!(m.get(&id("a")).is_none());
    assert_eq!(m.cancel(&id("a"), true), None);
    assert_eq!(m.cancel(&id("b"), true), None); // no file yet
    assert!(m.list().is_empty());
}

#[test]
fn running_tasks_follow_their_events() {
    let mut m = manager();
    add(&mut m, "a");
    assert!(m.subscribe(&id("a")).is_none());
    let queued = m.begin_at(&id("a"), NOW).unwrap();
    assert_eq!(queued.state, DownloadState::Queued);
    let t = m.get(&id("a")).unwrap();
    assert_eq!((t.state, t.started_at), (DownloadState::Probing, Some(NOW)));
    assert!(matches!(m.subscribe(&id("a")), Some(None)));

    m.on_event(&id("a"), SchedulerEvent::StateChange(DownloadState::Active));
    let report = SchedulerEvent::Progress { downloaded: 10, speed_bps: 2, connections: 3 };
    m.on_event(&id("a"), report);
    let p = m.latest_progress(&id("a")).unwrap();
    assert_eq!((p.downloaded_bytes, p.speed_bps, p.connections), (10, 2, 3));
    assert_eq!(p.state, DownloadState::Active);
    assert_eq!(p.eta_secs, None); // the size is unknown
    assert!(p.chunk_progress.is_empty());
    assert_eq!(p.task_id, id("a"));

    let done = SchedulerEvent::Complete { output_path: FilePath::from_text("/dl/f") };
    m.on_event_at(&id("a"), done, NOW);
    let t = m.get(&id("a")).unwrap();
    assert_eq!(t.state, DownloadState::Complete);
    assert_eq!(t.output_path, Some(FilePath::from_text("/dl/f")));
    assert_eq!(t.completed_at, Some(NOW));
}

#[test]
fn failures_are_noted() {
    let mut m = manager();
    add(&mut m, "a");
    m.on_event(&id("a"), SchedulerEvent::Error("bad".to_string()));
    let t = m.get(&id("a")).unwrap();
    assert_eq!(t.state, DownloadState::Error("bad".to_string()));
    assert_eq!(t.error_message.as_deref(), Some("bad"));
    m.scheduler_failed(&id("a"), "worse".to_string());
    let t = m.get(&id("a")).unwrap();
    assert_eq!(t.state, DownloadState::Error("worse".to_string()));
    assert_eq!(t.error_message.as_deref(), Some("bad"));
    // unknown tasks are ignored
    m.on_event(&id("x"), SchedulerEvent::Error("bad".to_string()));
    m.scheduler_failed(&id("x"), "bad".to_string());
    assert!(m.begin(&id("x")).is_none());
    assert_eq!(m.list().len(), 1);
}

#[test]
fn sessions_bring_tasks_back() {
    let mut m = manager();
    for gid in ["a", "b", "c", "d"] {
        add(&mut m, gid);
    }
    m.begin(&id("a"));
    m.begin(&id("b"));
    m.pause(&id("b")).unwrap();
    m.on_event(&id("c"), SchedulerEvent::Error("bad".to_string()));
    let session = m.save_session();
    assert_eq!(session.tasks.len(), 4);

    let mut back = manager();
    let restart = back.restore_session(session);
    assert_eq!(restart, vec![id("a")]);
    assert_eq!(state(&back, "a"), DownloadState::Queued);
    assert_eq!(state(&back, "b"), DownloadState::Paused);
    assert_eq!(state(&back, "c"), DownloadState::Error("bad".to_string()));
    assert_eq!(state(&back, "d"), DownloadState::Queued);
    assert!(back.subscribe(&id("a")).is_none());
    assert!(back.get(&id("a")).unwrap().started_at.is_some());
}

#[test]
fn sessions_hold_each_task_once() {
    let mut s = Session::new();
    let task = |gid: &str, state: DownloadState| {
        let mut t = DownloadTask::queued(id(gid), vec![], TaskOptions::default(), NOW);
        t.state = state;
        t
    };
    s.upsert(task("a", DownloadState::Queued));
    s.upsert(task("b", DownloadState::Queued));
    s.upsert(task("a", DownloadState::Complete));
    assert_eq!(s.tasks.len(), 2);
    assert_eq!(s.tasks[0].state, DownloadState::Complete);
    s.remove(&id("x"));
    assert_eq!(s.tasks.len(), 2);
    s.remove(&id("a"));
    assert_eq!(s.tasks.len(), 1);
    assert_eq!(s.tasks[0].id, id("b"));
    assert!(Session::default().tasks.is_empty());
}

#[test]
fn the_registry_learns_of_a_probed_file() {
    let mut m = manager();
    add(&mut m, "a");
    m.begin_at(&id("a"), NOW).unwrap();
    let found = Found {
        total_bytes: Some(1000),
        accepts_ranges: true,
        etag: Some("e".to_string()),
        last_modified: Some("Mon".to_string()),
        output_path: FilePath::from_text("/dl/f"),
        chunk_map: None,
    };
    m.on_event_at(&id("a"), SchedulerEvent::Found(found), NOW);
    let t = m.get(&id("a")).unwrap();
    assert_eq!((t.total_bytes, t.accepts_ranges), (Some(1000), true));
    assert_eq!((t.etag.as_deref(), t.last_modified.as_deref()), (Some("e"), Some("Mon")));
    assert!(t.chunk_map.is_none());
    let report = SchedulerEvent::Progress { downloaded: 400, speed_bps: 100, connections: 1 };
    m.on_event_at(&id("a"), report, NOW);
    let p = m.latest_progress(&id("a")).unwrap();
    assert_eq!((p.total_bytes, p.eta_secs), (Some(1000), Some(6)));
    m.on_event_at(&id("a"), SchedulerEvent::Chunks(ChunkMap::new(1000, 4)), NOW);
    assert_eq!(m.get(&id("a")).unwrap().chunk_map.unwrap().chunks.len(), 4);
    // the partial file can be deleted with the task
    assert_eq!(m.cancel(&id("a"), true), Some(FilePath::from_text("/dl/f")));
}

#[test]
fn connections_are_shared_out() {
    let mut b = ConnectionBudget::new(2);
    assert!(b.try_acquire());
    assert!(b.try_acquire());
    assert!(!b.try_acquire());
    assert_eq!(b.used(), 2);
    b.release();
    assert!(b.try_acquire());
    let mut all = ConnectionBudget::for_engine(manager().config());
    assert_eq!((0..40).filter(|_| all.try_acquire()).count(), 32);
    let mut nothing = ConnectionBudget::new(0);
    nothing.release();
    assert_eq!(nothing.used(), 0);
    assert!(!nothing.try_acquire());
}

#[test]
fn a_restored_session_goes_on() {
    let mut m = manager();
    for gid in ["a", "b", "c", "d"] {
        add(&mut m, gid);
    }
    m.begin_at(&id("a"), NOW).unwrap();
    m.begin_at(&id("b"), NOW).unwrap();
    m.pause(&id("b")).unwrap();
    m.on_event(&id("c"), SchedulerEvent::Error("e".to_string()));
    let saved = m.save_session();
    let mut after = manager();
    assert_eq!(after.restore_session(saved), vec![id("a")]);
    let mut queued: Vec<String> = after.queued().into_iter().map(|i| i.0).collect();
    queued.sort();
    assert_eq!(queued, vec!["a".to_string(), "d".to_string()]);
    assert_eq!(state(&after, "b"), DownloadState::Paused);
}
