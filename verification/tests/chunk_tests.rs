use rude_core::engine::chunk::{Chunk, ChunkMap, ChunkState, WorkQueue};

fn chunk(index: usize, start: u64, end: u64, downloaded: u64, state: ChunkState) -> Chunk {
    Chunk { index, start, end, downloaded, state }
}

#[test]
fn uneven_division_stops_at_the_end_of_the_file() {
    // ten bytes among seven: five chunks of two
    let map = ChunkMap::new(10, 7);
    let ranges: Vec<(usize, u64, u64)> =
        map.chunks.iter().map(|c| (c.index, c.start, c.end)).collect();
    assert_eq!(ranges, vec![(0, 0, 1), (1, 2, 3), (2, 4, 5), (3, 6, 7), (4, 8, 9)]);
    assert_eq!(map.pending_count(), 5);
}

#[test]
fn last_chunk_takes_the_rest() {
    let map = ChunkMap::new(1000, 3);
    let ranges: Vec<(u64, u64)> = map.chunks.iter().map(|c| (c.start, c.end)).collect();
    assert_eq!(ranges, vec![(0, 333), (334, 667), (668, 999)]);
    assert_eq!(map.chunks[2].len(), 332);
}

#[test]
fn single_chunk_of_nothing_has_one_byte() {
    let map = ChunkMap::single(0);
    assert_eq!((map.chunks[0].start, map.chunks[0].end), (0, 0));
}

#[test]
fn unknown_size_is_open_ended() {
    let map = ChunkMap::unknown();
    assert_eq!(map.chunks.len(), 1);
    assert_eq!(map.chunks[0].end, u64::MAX);
    assert_eq!(map.chunks[0].current_offset(), 0);
}

#[test]
fn offsets_and_remaining_follow_the_download() {
    let c = chunk(0, 100, 199, 30, ChunkState::Pending);
    assert_eq!(c.len(), 100);
    assert_eq!(c.remaining(), 70);
    assert_eq!(c.current_offset(), 130);
    assert!(!c.is_complete());
    let over = chunk(0, 100, 199, 150, ChunkState::Pending);
    assert_eq!(over.remaining(), 0);
    assert!(over.is_complete());
}

#[test]
fn totals_over_the_map() {
    let map = ChunkMap {
        chunks: vec![
            chunk(0, 0, 9, 10, ChunkState::Complete),
            chunk(1, 10, 19, 4, ChunkState::Pending),
        ],
    };
    assert_eq!(map.total_downloaded(), 14);
    assert!(!map.all_complete());
    assert_eq!(map.pending_count(), 1);
}

#[test]
fn claims_take_the_largest_and_the_last_of_equals() {
    let map = ChunkMap {
        chunks: vec![
            chunk(0, 0, 99, 0, ChunkState::Pending),
            chunk(1, 100, 399, 0, ChunkState::Pending),
            chunk(2, 400, 699, 0, ChunkState::Pending),
        ],
    };
    let mut queue = WorkQueue::new(map);
    assert_eq!(queue.claim_next(7, false).unwrap().index, 2);
    assert_eq!(queue.claim_next(7, false).unwrap().index, 1);
    let last = queue.claim_next(7, false).unwrap();
    assert_eq!(last.index, 0);
    assert_eq!(last.state, ChunkState::InFlight { worker_id: 7 });
    assert!(queue.claim_next(7, false).is_none());
}

#[test]
fn steals_from_the_worker_that_needs_longest() {
    let mib = 1024 * 1024;
    let map = ChunkMap {
        chunks: vec![
            chunk(0, 0, 40 * mib - 1, 0, ChunkState::InFlight { worker_id: 0 }),
            chunk(1, 40 * mib, 50 * mib - 1, 0, ChunkState::InFlight { worker_id: 1 }),
        ],
    };
    let mut queue = WorkQueue::new(map);
    queue.update_worker_speed(0, 40 * mib);
    queue.update_worker_speed(1, mib);
    assert_eq!(queue.get_worker_speed(0), 40 * mib);
    assert_eq!(queue.get_worker_speed(9), 0);
    // the smaller chunk takes ten times as long
    let stolen = queue.steal(2).unwrap();
    assert_eq!((stolen.index, stolen.start, stolen.end), (2, 45 * mib, 50 * mib - 1));
    assert_eq!(stolen.state, ChunkState::InFlight { worker_id: 2 });
    let snap = queue.snapshot();
    assert_eq!(snap.chunks[1].end, 45 * mib - 1);
    assert_eq!(snap.chunks[0].end, 40 * mib - 1);
}

#[test]
fn stalled_workers_are_stolen_from_first() {
    let mib = 1024 * 1024;
    let map = ChunkMap {
        chunks: vec![
            chunk(0, 0, 3 * mib - 1, 0, ChunkState::InFlight { worker_id: 0 }),
            chunk(1, 3 * mib, 900 * mib, 0, ChunkState::InFlight { worker_id: 1 }),
        ],
    };
    let mut queue = WorkQueue::new(map);
    queue.update_worker_speed(0, 0);
    queue.update_worker_speed(1, 1);
    assert_eq!(queue.steal(5).unwrap().end, 3 * mib - 1);
}

#[test]
fn small_rests_are_not_stolen() {
    let map = ChunkMap {
        chunks: vec![chunk(0, 0, 2 * 1024 * 1024 - 1, 0, ChunkState::InFlight { worker_id: 0 })],
    };
    let mut queue = WorkQueue::new(map);
    assert!(queue.steal(1).is_none());
}

#[test]
fn progress_counts_only_what_is_new() {
    let mut queue = WorkQueue::new(ChunkMap::new(1000, 2));
    let c = queue.claim_next(0, true).unwrap();
    queue.update_progress(c.index, 100);
    queue.update_progress(c.index, 150);
    assert_eq!(queue.written(), 150);
    // a smaller report moves the chunk back and adds nothing
    queue.update_progress(c.index, 120);
    assert_eq!(queue.written(), 150);
    assert_eq!(queue.snapshot().chunks[0].downloaded, 120);
    // an unknown chunk changes nothing
    queue.update_progress(99, 1);
    assert_eq!(queue.written(), 150);
    assert_eq!(queue.chunk_count(), 2);
}

#[test]
fn failures_are_counted_over_retries() {
    let mut queue = WorkQueue::new(ChunkMap::single(1000));
    for attempt in 1..=3u32 {
        let c = queue.claim_next(0, true).unwrap();
        queue.mark_failed(c.index);
        assert_eq!(queue.snapshot().chunks[0].state, ChunkState::Failed { attempts: attempt });
        assert_eq!(queue.failed_chunk(), Some((0, attempt)));
        let reset = queue.reset_failed(2);
        assert_eq!(reset, if attempt <= 2 { 1 } else { 0 });
    }
    assert!(queue.claim_next(0, true).is_none());
    // a second report on a failed chunk counts, too
    queue.mark_failed(0);
    assert_eq!(queue.failed_chunk(), Some((0, 4)));
}

#[test]
fn pending_and_complete_chunks_do_not_fail() {
    let mut queue = WorkQueue::new(ChunkMap::single(1000));
    queue.mark_failed(0);
    assert_eq!(queue.snapshot().chunks[0].state, ChunkState::Pending);
    queue.mark_complete(0, 1000);
    queue.mark_failed(0);
    assert_eq!(queue.snapshot().chunks[0].state, ChunkState::Complete);
    assert!(queue.failed_chunk().is_none());
    assert!(queue.all_complete());
}

#[test]
fn an_open_ended_chunk_is_done_when_the_file_ends() {
    let mut q = WorkQueue::new(ChunkMap::unknown());
    let c = q.claim_next(0, false).unwrap();
    assert!(!c.is_complete());
    assert_eq!(c.remaining(), u64::MAX);
    q.update_progress(0, 5_000_000);
    assert!(q.steal(1).is_none());
    assert!(!q.all_complete());
    q.mark_complete(0, 6_000_000);
    assert!(q.all_complete());
    assert_eq!(q.snapshot().chunks[0].downloaded, 6_000_000);
}

#[test]
fn chunks_are_handed_back() {
    let mut q = WorkQueue::new(ChunkMap::new(1000, 2));
    let c = q.claim_next(7, true).unwrap();
    assert!(q.is_in_flight(c.index));
    assert!(!q.is_in_flight(1));
    assert!(!q.hand_back(8));
    q.update_worker_speed(7, 40);
    q.update_worker_speed(8, 10);
    assert_eq!(q.speeds_at_work(), vec![40]);
    assert_eq!(q.slow_workers(41), vec![7]);
    assert!(q.slow_workers(40).is_empty());
    assert!(q.hand_back(7));
    assert!(!q.is_in_flight(c.index));
    assert!(q.speeds_at_work().is_empty());
    assert_eq!(q.claim_next(9, true).unwrap().index, c.index);
}

#[test]
fn downloaded_bytes_do_not_overflow() {
    let mut map = ChunkMap::new(1000, 2);
    map.chunks[0].downloaded = 300;
    map.chunks[1].downloaded = 20;
    assert_eq!(map.downloaded_so_far(), 320);
    map.chunks[1].downloaded = u64::MAX;
    assert_eq!(map.downloaded_so_far(), u64::MAX);
}
