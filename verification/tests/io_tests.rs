use rude_core::engine::chunk::{Chunk, ChunkState};
use rude_core::engine::config::EngineConfig;
use rude_core::engine::io::{
    align_to_page, check_disk_space, check_pwrite, ensure_disk_space, WriteOutcome,
    DEFAULT_WRITE_BUF, WRITE_QUEUE_CAPACITY,
};
use rude_core::engine::task::TaskOptions;
use rude_core::engine::worker::{
    check_response, is_success, range_header, request_headers, throttle, Throttle, Transfer,
    WorkerResult, WRITE_BUF,
};

const SECOND: u128 = 1_000_000_000;

fn chunk(start: u64, end: u64, downloaded: u64) -> Chunk {
    Chunk { index: 3, start, end, downloaded, state: ChunkState::Pending }
}

#[test]
fn sizes_are_aligned_to_pages() {
    assert_eq!(align_to_page(0), 0);
    assert_eq!(align_to_page(1), 4096);
    assert_eq!(align_to_page(4096), 4096);
    assert_eq!(align_to_page(4097), 8192);
    assert_eq!(align_to_page(usize::MAX - 4095), usize::MAX - 4095);
    assert_eq!(align_to_page(align_to_page(12345)), align_to_page(12345));
    assert_eq!(align_to_page(DEFAULT_WRITE_BUF), DEFAULT_WRITE_BUF);
    assert_eq!(WRITE_QUEUE_CAPACITY, 64);
}

#[test]
fn positional_writes_are_judged() {
    assert!(matches!(check_pwrite(-1, 10), WriteOutcome::Failed));
    assert!(matches!(check_pwrite(10, 10), WriteOutcome::Done));
    match check_pwrite(4, 10) {
        WriteOutcome::Partial(m) => assert_eq!(m, "pwrite64 wrote 4 of 10 bytes"),
        other => panic!("{:?}", other),
    }
}

#[test]
fn disk_space_is_checked() {
    assert_eq!(check_disk_space(10, 20, 4096), (40960, 81920));
    assert!(ensure_disk_space(100, 100).is_ok());
    assert_eq!(
        ensure_disk_space(99, 100).unwrap_err(),
        "Insufficient disk space: need 100 bytes, have 99 bytes available"
    );
}

#[test]
fn ranges_ask_for_what_is_left() {
    assert_eq!(range_header(&chunk(100, 199, 30)), "bytes=130-199");
    assert_eq!(range_header(&chunk(0, u64::MAX, 0)), "bytes=0-");
}

#[test]
fn responses_are_accepted_by_status() {
    assert!(is_success(200) && is_success(206) && !is_success(304) && !is_success(404));
    assert!(check_response(206, "206 Partial Content").is_ok());
    assert_eq!(
        check_response(404, "404 Not Found").unwrap_err(),
        ("HTTP 404 Not Found".to_string(), Some(404))
    );
}

#[test]
fn tasks_send_their_headers() {
    let mut o = TaskOptions::default();
    assert!(request_headers(&o).is_empty());
    o.headers = vec![("X-A".to_string(), "1".to_string())];
    o.referer = Some("http://r/".to_string());
    o.user_agent = Some("me".to_string());
    let pairs: Vec<(String, String)> = request_headers(&o);
    let expected = vec![("X-A", "1"), ("Referer", "http://r/"), ("User-Agent", "me")];
    assert_eq!(pairs.len(), 3);
    for (got, want) in pairs.iter().zip(expected) {
        assert_eq!((got.0.as_str(), got.1.as_str()), want);
    }
}

#[test]
fn a_cap_holds_for_all_workers_together() {
    let mut t = Throttle::new(1000, 0);
    // two workers write a thousand bytes each within the first second
    assert_eq!(t.charge(1000, SECOND / 2), SECOND / 2);
    assert_eq!(t.charge(1000, SECOND / 2), 3 * SECOND / 2);
    assert_eq!(t.charge(500, 2 * SECOND), SECOND / 2);
    let mut options = TaskOptions::default();
    let mut free = Throttle::for_task(&options, 0);
    assert_eq!(free.charge(u64::MAX, 0), 0);
    assert_eq!(free.charge(u64::MAX, 1), 0);
    options.max_speed = 10;
    assert_eq!(Throttle::for_task(&options, SECOND).charge(20, 2 * SECOND), SECOND);
    let mut config = EngineConfig::with_dirs(None, None);
    config.max_download_speed = 5;
    assert_eq!(Throttle::for_engine(&config, 0).charge(10, 0), 2 * SECOND);
}

#[test]
fn idle_time_is_not_saved_up() {
    let mut t = Throttle::new(1000, 0);
    assert_eq!(t.charge(1000, SECOND), 0);
    // an hour later a second's worth is free, and no more
    assert_eq!(t.charge(1000, 3600 * SECOND), 0);
    assert_eq!(t.charge(1000, 3600 * SECOND), SECOND);
}

#[test]
fn requests_ask_for_a_chunk_at_a_time() {
    let mut t = Transfer::new(chunk(1000, 1249, 50));
    let first = t.next_request(100).unwrap();
    assert_eq!(range_header(&first), "bytes=1050-1149");
    t.push(&[0u8; 100]);
    let second = t.next_request(100).unwrap();
    assert_eq!(range_header(&second), "bytes=1150-1249");
    t.push(&[0u8; 99]);
    assert_eq!(range_header(&t.next_request(100).unwrap()), "bytes=1249-1249");
    t.push(&[0u8; 1]);
    assert!(t.next_request(100).is_none());

    let mut whole = Transfer::new(chunk(1000, 1249, 0));
    assert_eq!(range_header(&whole.next_request(0).unwrap()), "bytes=1000-1249");
    assert!(whole.next_request(0).is_none()); // the answer was empty

    let mut open = Transfer::new(chunk(0, u64::MAX, 0));
    assert_eq!(range_header(&open.next_request(100).unwrap()), "bytes=0-");
    open.push(&[0u8; 500]);
    assert!(open.next_request(100).is_none());
}

#[test]
fn throttling_sleeps_the_deficit() {
    assert_eq!(throttle(1_000_000, 0, 0), 0);
    assert_eq!(throttle(1000, SECOND, 1000), 0);
    assert_eq!(throttle(3000, SECOND, 1000), 2 * SECOND);
    assert_eq!(throttle(1, 0, 3), 333_333_334);
    assert_eq!(throttle(u64::MAX, u128::MAX, 1), 0);
}

#[test]
fn throttled_transfers_keep_the_rate() {
    for (written, elapsed, cap) in
        [(10u64, 1u128, 3u64), (1 << 40, SECOND, 1000), (7, 0, 7), (1, 5 * SECOND, 1)]
    {
        let delay = throttle(written, elapsed, cap);
        assert!(written as u128 * SECOND <= (elapsed + delay) * cap as u128);
    }
}

#[test]
fn transfers_write_the_stream_in_order() {
    let mut t = Transfer::new(chunk(1000, 2_000_000, 24));
    let source: Vec<u8> = (0..700_001u32).map(|i| (i % 251) as u8).collect();
    let mut written: Vec<u8> = Vec::new();
    let mut next = 1024u64;
    for piece in source.chunks(10_007) {
        assert!(t.has_room(piece.len()));
        if let Some(op) = t.push(piece) {
            assert_eq!(op.offset, next);
            assert!(op.data.len() >= WRITE_BUF);
            next += op.data.len() as u64;
            written.extend_from_slice(&op.data);
            t.wrote(op.data.len() as u64, 0);
        }
    }
    let last = t.finish().unwrap();
    assert_eq!(last.offset, next);
    written.extend_from_slice(&last.data);
    t.wrote(last.data.len() as u64, 0);
    assert_eq!(written, source);
    assert!(t.finish().is_none());
    assert_eq!(t.outcome(), (700_001, 0));
    assert_eq!(t.so_far(), 24 + 700_001);
}

#[test]
fn transfers_report_in_time() {
    let mut t = Transfer::new(chunk(0, 10_000_000, 100));
    let piece = vec![7u8; WRITE_BUF];
    t.push(&piece).unwrap();
    t.wrote(WRITE_BUF as u64, SECOND / 10);
    let early = t.report(5, SECOND / 4, true);
    assert!(early.progress.is_none() && early.speed.is_none());
    let middle = t.report(5, SECOND / 2, true);
    assert_eq!(middle.progress, Some(100 + WRITE_BUF as u64));
    assert!(middle.speed.is_none());
    t.push(&piece).unwrap();
    t.wrote(WRITE_BUF as u64, 11 * SECOND / 10);
    let late = t.report(5, 3 * SECOND / 2, true);
    let speed = late.speed.unwrap();
    assert_eq!((speed.worker_id, speed.chunk_index), (5, 3));
    assert_eq!(speed.speed_bps, 2 * WRITE_BUF as u64);
    assert_eq!(speed.bytes_downloaded, 100 + 2 * WRITE_BUF as u64);
    let silent = t.report(5, 100 * SECOND, false);
    assert!(silent.progress.is_some() && silent.speed.is_none());
}

#[test]
fn transfers_have_an_end() {
    let t = Transfer::new(chunk(u64::MAX - 10, u64::MAX, 0));
    assert!(t.has_room(10));
    assert!(!t.has_room(11));
}

#[test]
fn attempts_become_results() {
    match WorkerResult::of_attempt(2, "http://m/".to_string(), Ok((10, 20))) {
        WorkerResult::Complete { chunk_index, bytes, speed_bps, mirror } => {
            assert_eq!((chunk_index, bytes, speed_bps, mirror.as_str()), (2, 10, 20, "http://m/"))
        }
        other => panic!("{:?}", other),
    }
    let failed = Err(("HTTP 500".to_string(), Some(500)));
    match WorkerResult::of_attempt(2, "http://m/".to_string(), failed) {
        WorkerResult::Failed { chunk_index, error, status_code, .. } => {
            assert_eq!((chunk_index, error.as_str(), status_code), (2, "HTTP 500", Some(500)))
        }
        other => panic!("{:?}", other),
    }
}
