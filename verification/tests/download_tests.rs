use rude_core::engine::chunk::{ChunkMap, ChunkState};
use rude_core::engine::download::{
    p75_speed, stop_message, DownloadLoop, LoopStatus, Plan,
};
use rude_core::engine::worker::WorkerResult;
use std::collections::HashMap;

const SECOND: u128 = 1_000_000_000;

fn plan(total: u64, split: usize, max_connections: usize, urls: &[&str]) -> Plan {
    Plan {
        chunk_map: ChunkMap::new(total, split),
        urls: urls.iter().map(|u| u.to_string()).collect(),
        max_connections,
        sequential: false,
        work_stealing: true,
        max_retries: 2,
        retry_delay_ms: 1000,
        chunk_size: 0,
    }
}

fn complete(chunk_index: usize, bytes: u64, mirror: &str) -> WorkerResult {
    WorkerResult::Complete { chunk_index, bytes, speed_bps: 100, mirror: mirror.to_string() }
}

fn failed(chunk_index: usize, mirror: &str, status_code: Option<u16>) -> WorkerResult {
    WorkerResult::Failed {
        chunk_index,
        mirror: mirror.to_string(),
        error: "e".to_string(),
        status_code,
    }
}

#[test]
fn a_download_runs_to_its_end() {
    let mut l = DownloadLoop::new(plan(1000, 4, 2, &["http://a/"]));
    let mut finished = 0;
    loop {
        let mut running = Vec::new();
        while let Some(a) = l.assign() {
            assert_eq!(a.mirror, "http://a/");
            running.push(a);
        }
        assert!(running.len() <= 2);
        for a in running {
            l.settle(complete(a.chunk.index, a.chunk.len(), &a.mirror));
            finished += 1;
        }
        match l.check() {
            LoopStatus::Done => break,
            LoopStatus::Running => {}
            other => panic!("{:?}", other),
        }
    }
    assert_eq!(finished, 4);
    assert_eq!(l.downloaded(), 1000);
    assert_eq!(l.connections(), 0);
    assert_eq!(l.workers_started(), 4);
    assert_eq!(l.p75_speed(), 100);
    assert!(l.snapshot().all_complete());
}

#[test]
fn idle_workers_steal() {
    let mut l = DownloadLoop::new(plan(100_000_000, 1, 3, &["http://a/"]));
    let first = l.assign_at(0).unwrap();
    let second = l.assign_at(0).unwrap();
    assert_eq!((first.worker_id, second.worker_id), (0, 1));
    assert_eq!(second.chunk.start, 50_000_000);
    assert_eq!(l.snapshot().chunks.len(), 2);
    l.update_worker_speed(0, 1);
    l.update_worker_speed(1, 1_000_000);
    let third = l.assign_at(0).unwrap();
    assert_eq!((third.chunk.start, third.chunk.end), (25_000_000, 49_999_999));
    assert!(l.assign_at(0).is_none()); // three workers are at work
}

#[test]
fn stealing_can_be_switched_off() {
    let mut p = plan(100_000_000, 1, 3, &["http://a/"]);
    p.work_stealing = false;
    let mut l = DownloadLoop::new(p);
    assert!(l.assign_at(0).is_some());
    assert!(l.assign_at(0).is_none());
    assert_eq!(l.connections(), 1);
}

/// Fail every attempt until the loop ends: the status and the number of attempts.
fn fail_always(l: &mut DownloadLoop, status_code: Option<u16>) -> (LoopStatus, u32) {
    let mut now = 0;
    let mut attempts = 0;
    loop {
        if let Some(a) = l.assign_at(now) {
            attempts += 1;
            let result = failed(a.chunk.index, &a.mirror, status_code);
            assert!(l.awaits(&result));
            l.settle_at(result, now);
        }
        let status = l.check();
        if status != LoopStatus::Running {
            return (status, attempts);
        }
        now += SECOND / 4;
        assert!(now < 1000 * SECOND);
    }
}

#[test]
fn failed_chunks_are_retried_and_given_up() {
    let mut l = DownloadLoop::new(plan(1000, 1, 1, &["http://a/"]));
    let (status, attempts) = fail_always(&mut l, None);
    assert_eq!(status, LoopStatus::GivenUp { chunk_index: 0, attempts: 3 });
    assert_eq!(attempts, 3);
    assert_eq!(stop_message(status).as_deref(), Some("Chunk 0 failed after 3 attempts"));
    assert_eq!(stop_message(LoopStatus::Done), None);
    assert_eq!(stop_message(LoopStatus::Running), None);
}

#[test]
fn five_retries_end_in_an_error() {
    // two mirrors live through six attempts, one is banned after five
    let mut p = plan(1000, 1, 1, &["http://a/", "http://b/"]);
    p.max_retries = 5;
    let mut l = DownloadLoop::new(p);
    let (status, attempts) = fail_always(&mut l, None);
    assert_eq!(status, LoopStatus::GivenUp { chunk_index: 0, attempts: 6 });
    assert_eq!(attempts, 6);

    let mut p = plan(1000, 1, 1, &["http://a/"]);
    p.max_retries = 5;
    let mut l = DownloadLoop::new(p);
    let (status, attempts) = fail_always(&mut l, None);
    assert_eq!(status, LoopStatus::NoMirrors);
    assert_eq!(attempts, 5);
    assert_eq!(stop_message(status).as_deref(), Some("All mirrors are banned"));
}

#[test]
fn a_chunk_waits_out_the_backoff() {
    let mut l = DownloadLoop::new(plan(1000, 1, 1, &["http://a/"]));
    l.assign_at(0).unwrap();
    l.settle_at(failed(0, "http://a/", None), 0);
    assert_eq!(l.check(), LoopStatus::Running);
    assert!(l.assign_at(1).is_none());
    assert_eq!(l.connections(), 0);
    assert!(matches!(l.snapshot().chunks[0].state, ChunkState::Pending));
    assert_eq!(l.assign_at(SECOND).unwrap().worker_id, 1);
}

#[test]
fn the_retry_delay_sets_the_backoff() {
    let mut p = plan(1000, 1, 1, &["http://a/"]);
    p.retry_delay_ms = 3000;
    let mut l = DownloadLoop::new(p);
    l.assign_at(0).unwrap();
    l.settle_at(failed(0, "http://a/", None), 0);
    l.check();
    assert!(l.assign_at(3 * SECOND - 1).is_none());
    l.assign_at(3 * SECOND).unwrap();
    l.settle_at(failed(0, "http://a/", None), 3 * SECOND);
    l.check();
    assert!(l.assign_at(9 * SECOND - 1).is_none());
    assert!(l.assign_at(9 * SECOND).is_some());
}

#[test]
fn failing_mirrors_are_left_for_others() {
    let mut l = DownloadLoop::new(plan(1000, 1, 1, &["http://a/", "http://b/"]));
    let a = l.assign_at(0).unwrap();
    assert_eq!(a.mirror, "http://b/");
    l.settle_at(failed(0, "http://b/", Some(404)), 0);
    assert_eq!(l.check(), LoopStatus::Running);
    assert_eq!(l.assign_at(0).unwrap().mirror, "http://a/");
}

#[test]
fn without_a_mirror_the_loop_ends() {
    let mut l = DownloadLoop::new(plan(1000, 2, 4, &["http://a/"]));
    let first = l.assign_at(0).unwrap();
    let second = l.assign_at(0).unwrap();
    l.settle_at(failed(first.chunk.index, "http://a/", Some(404)), 0);
    // the other worker may still bring its chunk to an end
    assert_eq!(l.check(), LoopStatus::Running);
    assert!(l.assign_at(0).is_none());
    l.settle_at(complete(second.chunk.index, 500, "http://a/"), 0);
    assert_eq!(l.check(), LoopStatus::NoMirrors);
    let at_work =
        l.snapshot().chunks.iter().filter(|c| matches!(c.state, ChunkState::InFlight { .. })).count();
    assert_eq!((at_work, l.connections()), (0, 0));
}

#[test]
fn slow_workers_are_restarted() {
    let mut l = DownloadLoop::new(plan(30_000, 3, 3, &["http://a/"]));
    let started: Vec<_> = (0..3).map(|_| l.assign_at(0).unwrap()).collect();
    assert_eq!(l.median_speed(), 0);
    assert!(l.slow_workers(0).is_empty());
    for (a, speed) in started.iter().zip([100, 1000, 1200]) {
        l.update_worker_speed(a.worker_id, speed);
    }
    assert_eq!(l.median_speed(), 1000);
    assert_eq!(l.slow_workers(300), vec![started[0].worker_id]);
    assert!(l.slow_workers(100).is_empty());
    let slow = &started[0];
    l.update_progress(slow.chunk.index, 77);
    assert!(!l.restart(99, &slow.mirror));
    assert!(l.restart(slow.worker_id, &slow.mirror));
    assert!(!l.restart(slow.worker_id, &slow.mirror));
    assert!(!l.awaits(&failed(slow.chunk.index, &slow.mirror, None)));
    assert_eq!(l.connections(), 2);
    // a report that comes too late changes nothing
    l.update_progress(slow.chunk.index, 99);
    let again = l.assign_at(0).unwrap();
    assert_eq!((again.worker_id, again.chunk.index), (3, slow.chunk.index));
    assert_eq!(again.chunk.downloaded, 77);
    assert!(l.slow_workers(300).is_empty());
}

#[test]
fn a_restart_gives_the_connection_back() {
    let mut l = DownloadLoop::new(plan(30_000, 3, 1, &["http://a/"]));
    let a = l.assign_at(0).unwrap();
    assert!(l.assign_at(0).is_none()); // one connection to the mirror
    l.restart(a.worker_id, &a.mirror);
    assert!(l.assign_at(0).is_some());
}

#[test]
fn as_many_workers_as_connections() {
    let mut l = DownloadLoop::new(plan(80_000, 8, 5, &["http://a/", "http://b/"]));
    for _ in 0..5 {
        assert!(l.assign_at(0).is_some());
    }
    assert!(l.assign_at(0).is_none());
    assert_eq!(l.connections(), 5);
}

#[test]
fn unknown_sizes_are_downloaded() {
    let mut p = plan(1, 1, 4, &["http://a/"]);
    p.chunk_map = ChunkMap::unknown();
    assert!(p.is_startable());
    let mut l = DownloadLoop::new(p);
    let a = l.assign_at(0).unwrap();
    assert_eq!((a.chunk.start, a.chunk.end), (0, u64::MAX));
    assert!(l.assign_at(0).is_none()); // nothing to steal of it
    l.update_progress(0, 12_345);
    assert_eq!(l.check(), LoopStatus::Running);
    l.settle_at(complete(0, 20_000, "http://a/"), 0);
    assert_eq!(l.check(), LoopStatus::Done);
    assert_eq!(l.snapshot().chunks[0].downloaded, 20_000);
    assert_eq!(l.fetched(), 20_000);
}

#[test]
fn plans_that_cannot_start_are_told() {
    let good = plan(1000, 4, 2, &["http://a/"]);
    assert!(good.is_startable());
    let mut flying = plan(1000, 4, 2, &["http://a/"]);
    flying.chunk_map.chunks[2].state = ChunkState::InFlight { worker_id: 7 };
    assert!(!flying.is_startable());
    let mut moved = plan(1000, 4, 2, &["http://a/"]);
    moved.chunk_map.chunks[1].index = 2;
    assert!(!moved.is_startable());
    let mut empty = plan(1000, 4, 2, &["http://a/"]);
    empty.chunk_map.chunks[0].start = 600;
    assert!(!empty.is_startable());
    let mut hollow = plan(1000, 4, 2, &["http://a/"]);
    hollow.chunk_map.chunks[0].state = ChunkState::Complete;
    assert!(!hollow.is_startable());
}

#[test]
fn reports_reach_the_queue() {
    let mut l = DownloadLoop::new(plan(1000, 2, 2, &["http://a/"]));
    let a = l.assign().unwrap();
    l.update_progress(a.chunk.index, 123);
    assert_eq!(l.downloaded(), 123);
    assert_eq!(l.fetched(), 123);
    assert_eq!(l.snapshot().chunks[a.chunk.index].downloaded, 123);
    assert_eq!(l.check(), LoopStatus::Running);
}

#[test]
fn p75_of_a_map() {
    let mut speeds: HashMap<usize, u64> = HashMap::new();
    assert_eq!(p75_speed(&speeds), 0);
    for (i, s) in [50, 10, 40, 20, 30].iter().enumerate() {
        speeds.insert(i, *s);
    }
    assert_eq!(p75_speed(&speeds), 40);
}

#[test]
fn a_mirror_that_is_named_twice_stands_twice() {
    let mut l = DownloadLoop::new(plan(40_000, 4, 2, &["http://a/", "http://a/"]));
    let first = l.assign_at(0).unwrap();
    let second = l.assign_at(0).unwrap();
    assert_eq!((first.mirror.as_str(), second.mirror.as_str()), ("http://a/", "http://a/"));
    assert!(l.assign_at(0).is_none());
    // both reports go to the first, so that the other one is not banned
    for a in [first, second] {
        let result = failed(a.chunk.index, "http://a/", Some(404));
        assert!(l.awaits(&result));
        l.settle_at(result, 0);
    }
    assert_eq!(l.check(), LoopStatus::Running);
    assert_eq!(l.assign_at(0).unwrap().mirror, "http://a/");
}
