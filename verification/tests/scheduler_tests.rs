use rude_core::engine::chunk::{Chunk, ChunkMap, ChunkState};
use rude_core::engine::config::{EngineConfig, FileAllocation};
use rude_core::engine::disposition::suggested_name;
use rude_core::engine::resume::{fits_file, least_length, revive};
use rude_core::engine::scheduler::{
    effective_split, file_space, keeps_file, plan_chunks, read_head, Action,
    HeadResponse, Input, ProbeResult, Scheduler, SchedulerEvent, Space, Step,
};
use rude_core::engine::task::{
    Checksum, ChecksumAlgo, DownloadState, DownloadTask, TaskId, TaskOptions, Timestamp,
};
use rude_core::path::FilePath;

fn config() -> EngineConfig {
    EngineConfig::with_dirs(Some(FilePath::from_text("/dl")), None)
}

fn scheduler(urls: &[&str], options: TaskOptions) -> Scheduler {
    let task = DownloadTask::queued(
        TaskId("t".to_string()),
        urls.iter().map(|u| u.to_string()).collect(),
        options,
        Timestamp { secs: 0, nanos: 0 },
    );
    Scheduler::new(task, config())
}

fn head(status: u16, length: Option<&str>, ranges: Option<&str>) -> HeadResponse {
    HeadResponse {
        status,
        reason: "404 Not Found".to_string(),
        content_length: length.map(String::from),
        accept_ranges: ranges.map(String::from),
        etag: Some("\"e\"".to_string()),
        last_modified: Some("Mon".to_string()),
        content_disposition: Some("attachment; filename=\"x.iso\"".to_string()),
        is_http2: true,
    }
}

fn probe(content_length: Option<u64>, accepts_ranges: bool) -> ProbeResult {
    ProbeResult {
        content_length,
        accepts_ranges,
        etag: None,
        last_modified: None,
        filename: None,
        is_http2: false,
    }
}

fn answer(s: &mut Scheduler, input: Input) -> Step {
    assert!(s.expects(&input));
    s.step(input)
}

fn stop_error(step: &Step) -> String {
    match &step.action {
        Action::Stop(Err(e)) => e.clone(),
        other => panic!("{:?}", other),
    }
}

fn up_to_download(s: &mut Scheduler, length: Option<u64>) -> Step {
    s.start();
    answer(s, Input::Probed(Ok(probe(length, true))));
    let step = answer(s, Input::DirCreated(Ok(())));
    if length.is_some() {
        assert!(matches!(step.action, Action::CheckSpace { .. }));
        answer(s, Input::Space(Ok(u64::MAX)));
    }
    answer(s, Input::Allocated(Ok(false)))
}

#[test]
fn head_responses_are_read() {
    let ok = read_head(&head(200, Some("1234"), Some("BYTES"))).unwrap();
    assert_eq!((ok.content_length, ok.accepts_ranges, ok.is_http2), (Some(1234), true, true));
    assert_eq!(ok.etag.as_deref(), Some("\"e\""));
    assert_eq!(ok.last_modified.as_deref(), Some("Mon"));
    assert_eq!(ok.filename.as_deref(), Some("x.iso"));
    let odd = read_head(&head(204, Some("12a"), Some("none"))).unwrap();
    assert_eq!((odd.content_length, odd.accepts_ranges), (None, false));
    let bare = read_head(&head(200, None, None)).unwrap();
    assert_eq!((bare.content_length, bare.accepts_ranges), (None, false));
    assert_eq!(read_head(&head(404, None, None)).unwrap_err(), "HEAD returned HTTP 404 Not Found");
}

#[test]
fn files_go_to_directories_that_are_not_text() {
    let mut options = TaskOptions::default();
    options.dir = Some(FilePath { bytes: b"/\xff".to_vec() });
    let mut s = scheduler(&["http://a/f.iso"], options);
    s.start();
    let step = answer(&mut s, Input::Probed(Ok(probe(Some(10), true))));
    assert!(matches!(&step.action, Action::CreateDir { dir } if dir.bytes == b"/\xff"));
    let step = answer(&mut s, Input::DirCreated(Ok(())));
    assert!(matches!(&step.action, Action::CheckSpace { dir } if dir.bytes == b"/\xff"));
    let step = answer(&mut s, Input::Space(Ok(1000)));
    assert!(matches!(&step.action, Action::Allocate { path, .. } if path.bytes == b"/\xff/f.iso"));
}

#[test]
fn splits() {
    assert_eq!(effective_split(false, Some(16), 8), 1);
    assert_eq!(effective_split(true, Some(16), 8), 16);
    assert_eq!(effective_split(true, None, 8), 8);
}

#[test]
fn small_files_are_not_divided() {
    assert_eq!(plan_chunks(Some(1000), 1000, 4).chunks.len(), 4);
    assert_eq!(plan_chunks(Some(999), 1000, 4).chunks.len(), 1);
    assert_eq!(plan_chunks(Some(1000), 1000, 1).chunks.len(), 1);
    assert_eq!(plan_chunks(None, 1000, 4).chunks[0].end, u64::MAX);
}

#[test]
fn the_whole_lifecycle() {
    let mut s = scheduler(&["https://e.com/f.iso"], TaskOptions::default());
    let first = s.start();
    assert!(matches!(
        first.events[..],
        [SchedulerEvent::StateChange(DownloadState::Probing)]
    ));
    match &first.action {
        Action::Probe { url } => assert_eq!(url, "https://e.com/f.iso"),
        other => panic!("{:?}", other),
    }
    let dir = answer(&mut s, Input::Probed(Ok(probe(Some(100_000_000), true))));
    match &dir.events[..] {
        [SchedulerEvent::Found(found)] => {
            assert_eq!((found.total_bytes, found.accepts_ranges), (Some(100_000_000), true));
            assert_eq!(found.output_path, FilePath::from_text("/dl/f.iso"));
            assert!(found.chunk_map.is_none());
        }
        other => panic!("{:?}", other),
    }
    match &dir.action {
        Action::CreateDir { dir } => assert_eq!(dir.display(), "/dl"),
        other => panic!("{:?}", other),
    }
    let space = answer(&mut s, Input::DirCreated(Ok(())));
    assert!(matches!(space.action, Action::CheckSpace { .. }));
    let file = answer(&mut s, Input::Space(Ok(100_000_000)));
    match &file.action {
        Action::Allocate { path, space, keep } => {
            assert_eq!((path.display().as_str(), *keep), ("/dl/f.iso", None));
            assert_eq!(*space, Space::Length(100_000_000));
        }
        other => panic!("{:?}", other),
    }
    let run = answer(&mut s, Input::Allocated(Ok(false)));
    assert!(matches!(
        run.events[..],
        [SchedulerEvent::Chunks(_), SchedulerEvent::StateChange(DownloadState::Active)]
    ));
    match &run.action {
        Action::Download { plan, path } => {
            assert_eq!(path.display(), "/dl/f.iso");
            assert_eq!(plan.chunk_map.chunks.len(), 8);
            assert_eq!(plan.max_connections, 8);
            assert!(plan.work_stealing && !plan.sequential);
            assert_eq!((plan.max_retries, plan.retry_delay_ms), (5, 1000));
            assert_eq!(plan.chunk_size, 4 * 1024 * 1024);
            assert!(plan.is_startable());
        }
        other => panic!("{:?}", other),
    }
    let end = answer(&mut s, Input::Downloaded(Ok(())));
    assert!(matches!(end.action, Action::Stop(Ok(()))));
    match &end.events[..] {
        [SchedulerEvent::StateChange(DownloadState::Assembling), SchedulerEvent::Complete { output_path }] => {
            assert_eq!(output_path, &FilePath::from_text("/dl/f.iso"))
        }
        other => panic!("{:?}", other),
    }
    assert!(!s.expects(&Input::Downloaded(Ok(()))));
}

#[test]
fn mirrors_are_probed_in_order() {
    let mut s = scheduler(&["https://a/", "https://b/"], TaskOptions::default());
    s.start();
    let second = answer(&mut s, Input::Probed(Err("x".to_string())));
    match &second.action {
        Action::Probe { url } => assert_eq!(url, "https://b/"),
        other => panic!("{:?}", other),
    }
    let last = answer(&mut s, Input::Probed(Err("y".to_string())));
    assert_eq!(stop_error(&last), "All mirrors failed during probe");
    match &last.events[..] {
        [SchedulerEvent::Error(e)] => assert_eq!(e, "All mirrors failed during probe"),
        other => panic!("{:?}", other),
    }
}

#[test]
fn without_urls_probing_fails() {
    let mut s = scheduler(&[], TaskOptions::default());
    let step = s.start();
    assert_eq!(step.events.len(), 2);
    assert_eq!(stop_error(&step), "All mirrors failed during probe");
}

#[test]
fn missing_space_is_reported() {
    let mut s = scheduler(&["https://e.com/f"], TaskOptions::default());
    s.start();
    answer(&mut s, Input::Probed(Ok(probe(Some(500), false))));
    answer(&mut s, Input::DirCreated(Ok(())));
    let step = answer(&mut s, Input::Space(Ok(499)));
    let text = "Insufficient disk space: need 500 bytes, have 499 bytes available";
    assert_eq!(stop_error(&step), text);
    assert!(matches!(&step.events[..], [SchedulerEvent::Error(e)] if e == text));
}

#[test]
fn other_errors_only_stop() {
    let mut s = scheduler(&["https://e.com/f"], TaskOptions::default());
    s.start();
    answer(&mut s, Input::Probed(Ok(probe(Some(500), false))));
    let step = answer(&mut s, Input::DirCreated(Err("no dir".to_string())));
    assert_eq!(stop_error(&step), "no dir");
    assert!(step.events.is_empty());

    let mut s = scheduler(&["https://e.com/f"], TaskOptions::default());
    up_to_download(&mut s, Some(500));
    let step = answer(&mut s, Input::Downloaded(Err("broken".to_string())));
    assert_eq!(stop_error(&step), "broken");
    assert!(step.events.is_empty());
}

#[test]
fn unknown_sizes_skip_the_space_check() {
    let mut options = TaskOptions::default();
    options.dir = Some(FilePath::from_text("/x"));
    options.out = Some("y".to_string());
    let mut s = scheduler(&["https://e.com/f"], options);
    let step = up_to_download(&mut s, None);
    match &step.action {
        Action::Download { plan, path } => {
            assert_eq!(path.display(), "/x/y");
            assert_eq!(plan.chunk_map.chunks[0].end, u64::MAX);
        }
        other => panic!("{:?}", other),
    }
}

#[test]
fn checksums_decide_completion() {
    let mut options = TaskOptions::default();
    options.checksum = Some(Checksum {
        algorithm: ChecksumAlgo::Md5,
        value: "900150983CD24FB0D6963F7D28E17F72".to_string(),
    });
    let mut good = scheduler(&["https://e.com/f"], options.clone());
    up_to_download(&mut good, Some(3));
    let read = answer(&mut good, Input::Downloaded(Ok(())));
    assert!(matches!(&read.action, Action::ReadFile { path } if path.display() == "/dl/f"));
    let end = answer(&mut good, Input::FileRead(Ok(b"abc".to_vec())));
    assert!(matches!(end.action, Action::Stop(Ok(()))));
    assert_eq!(end.events.len(), 2);

    let mut bad = scheduler(&["https://e.com/f"], options);
    up_to_download(&mut bad, Some(3));
    answer(&mut bad, Input::Downloaded(Ok(())));
    let end = answer(&mut bad, Input::FileRead(Ok(b"abd".to_vec())));
    assert!(stop_error(&end).starts_with("Checksum mismatch: expected 900150983CD24"));
    assert!(end.events.is_empty());
}

#[test]
fn inputs_out_of_turn_are_not_expected() {
    let mut s = scheduler(&["https://e.com/f"], TaskOptions::default());
    s.start();
    assert!(!s.expects(&Input::Downloaded(Ok(()))));
    assert!(!s.expects(&Input::Probed(Ok(probe(Some(u64::MAX), true)))));
    assert!(s.expects(&Input::Probed(Ok(probe(Some(u64::MAX), false)))));
}

#[test]
fn the_largest_divisible_file() {
    // the size and the number of chunks, less one, just fit
    let map = plan_chunks(Some(u64::MAX - 7), 0, 8);
    assert_eq!(map.chunks.len(), 8);
    assert_eq!(map.chunks[7].end, u64::MAX - 8);
    let mut s = scheduler(&["https://e.com/f"], TaskOptions::default());
    s.start();
    assert!(s.expects(&Input::Probed(Ok(probe(Some(u64::MAX - 7), true)))));
    assert!(!s.expects(&Input::Probed(Ok(probe(Some(u64::MAX - 6), true)))));
}

#[test]
fn the_allocation_setting_counts() {
    assert_eq!(file_space(FileAllocation::Unallocated, Some(9)), Space::Growing);
    assert_eq!(file_space(FileAllocation::Prealloc, Some(9)), Space::Length(9));
    assert_eq!(file_space(FileAllocation::Falloc, Some(9)), Space::Reserved(9));
    assert_eq!(file_space(FileAllocation::Falloc, None), Space::Growing);
}

#[test]
fn files_that_are_long_enough_are_kept() {
    assert!(keeps_file(Some(10), Some(10)));
    assert!(!keeps_file(Some(10), Some(9)));
    assert!(!keeps_file(Some(0), None));
    assert!(!keeps_file(None, Some(10)));
}

#[test]
fn servers_suggest_names() {
    let name = |header: &str| suggested_name(header);
    assert_eq!(name("attachment; filename=a.iso").as_deref(), Some("a.iso"));
    assert_eq!(name("attachment; FileName = \"a;b.iso\" ; x=1").as_deref(), Some("a;b.iso"));
    assert_eq!(name("attachment; filename=\"../../etc/passwd\"").as_deref(), Some("passwd"));
    assert_eq!(name("attachment; filename=\"C:\\dir\\b.txt\"").as_deref(), Some("b.txt"));
    assert_eq!(name("inline"), None);
    assert_eq!(name("attachment; filename=\"\""), None);
    assert_eq!(name("attachment; filename=.."), None);
    assert_eq!(name("attachment; filename*=UTF-8''c.iso"), None);
}

#[test]
fn suggested_names_come_before_the_url() {
    let path = |out: Option<&str>| {
        let mut options = TaskOptions::default();
        options.out = out.map(String::from);
        let mut s = scheduler(&["https://e.com/f.iso"], options);
        s.start();
        let mut p = probe(None, false);
        p.filename = Some("g.iso".to_string());
        answer(&mut s, Input::Probed(Ok(p)));
        match answer(&mut s, Input::DirCreated(Ok(()))).action {
            Action::Allocate { path, .. } => path.display(),
            other => panic!("{:?}", other),
        }
    };
    assert_eq!(path(None), "/dl/g.iso");
    assert_eq!(path(Some("h.iso")), "/dl/h.iso");
}

fn saved_map() -> ChunkMap {
    let mut map = ChunkMap::new(30_000_000, 3);
    map.chunks[0].downloaded = 10_000_000;
    map.chunks[0].state = ChunkState::Complete;
    map.chunks[1].downloaded = 123;
    map.chunks[1].state = ChunkState::InFlight { worker_id: 4 };
    map.chunks[2].state = ChunkState::Failed { attempts: 2 };
    map
}

fn interrupted(etag: Option<&str>) -> Scheduler {
    let mut task = DownloadTask::queued(
        TaskId("t".to_string()),
        vec!["https://e.com/f.iso".to_string()],
        TaskOptions::default(),
        Timestamp { secs: 0, nanos: 0 },
    );
    task.total_bytes = Some(30_000_000);
    task.etag = etag.map(String::from);
    task.chunk_map = Some(saved_map());
    Scheduler::new(task, config())
}

/// The chunks that the download begins with, and what has to be kept of the file.
fn resumed(etag: Option<&str>, mut p: ProbeResult, kept: bool) -> (Vec<Chunk>, Option<u64>) {
    let mut s = interrupted(etag);
    s.start();
    p.etag = Some("v1".to_string());
    answer(&mut s, Input::Probed(Ok(p)));
    answer(&mut s, Input::DirCreated(Ok(())));
    let keep = match answer(&mut s, Input::Space(Ok(u64::MAX))).action {
        Action::Allocate { keep, .. } => keep,
        other => panic!("{:?}", other),
    };
    match answer(&mut s, Input::Allocated(Ok(kept))).action {
        Action::Download { plan, .. } => {
            assert!(plan.is_startable());
            (plan.chunk_map.chunks, keep)
        }
        other => panic!("{:?}", other),
    }
}

#[test]
fn interrupted_downloads_are_resumed() {
    let (chunks, keep) = resumed(Some("v1"), probe(Some(30_000_000), true), true);
    assert_eq!(keep, Some(10_000_123));
    assert_eq!(chunks.len(), 3);
    assert_eq!((chunks[0].downloaded, chunks[0].state), (10_000_000, ChunkState::Complete));
    assert_eq!((chunks[1].downloaded, chunks[1].state), (123, ChunkState::Pending));
    assert_eq!((chunks[2].downloaded, chunks[2].state), (0, ChunkState::Pending));
}

#[test]
fn other_files_are_fetched_afresh() {
    let fresh = |etag, p, kept| {
        let (chunks, _) = resumed(etag, p, kept);
        chunks.iter().all(|c| c.downloaded == 0 && c.state == ChunkState::Pending)
    };
    let same = || probe(Some(30_000_000), true);
    assert!(fresh(Some("v0"), same(), true)); // another version
    assert!(fresh(None, same(), true));
    assert!(fresh(Some("v1"), probe(Some(30_000_001), true), true)); // another size
    assert!(fresh(Some("v1"), probe(Some(30_000_000), false), true)); // no ranges
    assert!(fresh(Some("v1"), same(), false)); // the file is gone
}

#[test]
fn saved_chunks_must_be_those_of_the_file() {
    let map = saved_map();
    assert!(fits_file(&map, 30_000_000));
    assert!(!fits_file(&map, 29_999_999));
    assert!(!fits_file(&map, 30_000_001));
    assert!(!fits_file(&map, 0));
    assert!(fits_file(&ChunkMap { chunks: vec![] }, 0));
    let mut gap = saved_map();
    gap.chunks[1].end -= 1;
    assert!(!fits_file(&gap, 30_000_000));
    let mut overlap = saved_map();
    overlap.chunks[1].end += 1;
    assert!(!fits_file(&overlap, 30_000_000));
    let mut swapped = saved_map();
    swapped.chunks.swap(0, 2);
    assert!(!fits_file(&swapped, 30_000_000));
    swapped.chunks[0].index = 0;
    swapped.chunks[2].index = 2;
    assert!(fits_file(&swapped, 30_000_000)); // in any order
    let mut more = saved_map();
    more.chunks[1].downloaded = u64::MAX;
    let revived = revive(&more);
    assert_eq!(revived.chunks[1].downloaded, 10_000_000);
    assert_eq!(least_length(&revived), 20_000_000);
}
