use rude_core::engine::config::EngineConfig;
use rude_core::engine::manager::DownloadManager;
use rude_core::engine::scheduler::SchedulerEvent;
use rude_core::engine::task::{ChecksumAlgo, DownloadState, TaskId};
use rude_core::proto::types::{AddOptions, AddUriRequest, OkResponse, StatusResponse, TaskIdRequest};
use rude_core::rpc::server::{
    add_parsed, add_uri, authorization, authorized, bearer_token, check_request, global_counts,
    global_stat, keeps_streaming, options_from_add, parse_headers, pause, remove, resume,
    tell_active, tell_status, tell_stopped, tell_waiting, total_speed, ApiError,
};
use rude_core::path::FilePath;

fn manager() -> DownloadManager {
    DownloadManager::new(EngineConfig::with_dirs(None, None))
}

fn request(uris: &[&str]) -> AddUriRequest {
    AddUriRequest {
        uris: uris.iter().map(|u| u.to_string()).collect(),
        options: AddOptions::default(),
    }
}

fn add(m: &mut DownloadManager) -> String {
    add_uri(m, &request(&["https://e.com/f.iso"])).unwrap().gid
}

fn set(m: &mut DownloadManager, gid: &str, state: DownloadState) {
    m.on_event(&TaskId(gid.to_string()), SchedulerEvent::StateChange(state));
}

fn gids(statuses: Vec<StatusResponse>) -> Vec<String> {
    let mut gids: Vec<String> = statuses.into_iter().map(|s| s.gid).collect();
    gids.sort();
    gids
}

#[test]
fn errors_have_a_status() {
    let e = ApiError::bad_request("a");
    assert_eq!((e.status, e.message.as_str()), (400, "a"));
    assert_eq!(ApiError::not_found("b").status, 404);
    assert_eq!(ApiError::internal("c").status, 500);
    assert_eq!(OkResponse::ok().result, "OK");
    assert_eq!(TaskIdRequest { gid: "g".to_string() }.gid, "g");
}

#[test]
fn downloads_are_added() {
    let mut m = manager();
    let gid = add(&mut m);
    assert_eq!(gid.len(), 36);
    let s = tell_status(&m, gid.clone()).unwrap();
    assert_eq!((s.gid.as_str(), s.status.as_str()), (gid.as_str(), "waiting"));
    assert_eq!(s.total_length, "0");
    assert_eq!(s.files.len(), 1);
    assert_eq!(s.files[0].uris[0].uri, "https://e.com/f.iso");
    assert_eq!(s.files[0].uris[0].status, "used");
    assert_eq!((s.files[0].index, s.files[0].selected), (1, true));
}

#[test]
fn bad_requests_change_nothing() {
    let mut m = manager();
    let e = add_uri(&mut m, &request(&["https://ok/", "nonsense"])).unwrap_err();
    assert_eq!((e.status, e.message.as_str()), (400, "relative URL without a base"));
    let e = add_uri(&mut m, &request(&[])).unwrap_err();
    assert_eq!((e.status, e.message.as_str()), (500, "At least one URL required"));
    let mut r = request(&["https://ok/"]);
    r.options.checksum = Some("crc=1".to_string());
    let e = add_uri(&mut m, &r).unwrap_err();
    assert_eq!((e.status, e.message.as_str()), (400, "Unknown checksum algo: crc"));
    assert!(m.list().is_empty());
    assert!(add_parsed(&mut m, vec!["https://ok/".to_string()], &AddOptions::default()).is_ok());
    assert_eq!(m.list().len(), 1);
}

#[test]
fn options_are_taken_over() {
    let mut o = AddOptions::default();
    o.out = Some("f".to_string());
    o.dir = Some("/d".to_string());
    o.split = Some(3);
    o.max_connection_per_server = Some(4);
    o.checksum = Some("SHA1=aa".to_string());
    o.max_download_limit = Some(77);
    o.header = Some(vec![" A : b:c ".to_string(), "nothing".to_string(), ":".to_string()]);
    o.referer = Some("http://r/".to_string());
    o.sequential_download = Some(true);
    let t = options_from_add(&o).unwrap();
    assert_eq!((t.out.as_deref(), t.dir), (Some("f"), Some(FilePath::from_text("/d"))));
    assert_eq!((t.split, t.max_connections), (Some(3), Some(4)));
    let c = t.checksum.unwrap();
    assert_eq!((c.algorithm, c.value.as_str()), (ChecksumAlgo::Sha1, "aa"));
    assert_eq!((t.max_speed, t.sequential), (77, true));
    let expected =
        vec![("A".to_string(), "b:c".to_string()), ("".to_string(), "".to_string())];
    assert_eq!(t.headers, expected);
    assert_eq!(t.referer.as_deref(), Some("http://r/"));
    assert_eq!(t.user_agent, None);

    let plain = options_from_add(&AddOptions::default()).unwrap();
    assert!(!plain.sequential && plain.max_speed == 0 && plain.headers.is_empty());
    assert!(plain.checksum.is_none());
    assert!(parse_headers(&vec![]).is_empty());
}

#[test]
fn unknown_tasks_are_refused() {
    let mut m = manager();
    let e = tell_status(&m, "x".to_string()).unwrap_err();
    assert_eq!((e.status, e.message.as_str()), (404, "Task not found"));
    let e = pause(&mut m, "x".to_string()).unwrap_err();
    assert_eq!((e.status, e.message.as_str()), (500, "Task not found: x"));
    let e = resume(&mut m, "x".to_string()).unwrap_err();
    assert_eq!((e.status, e.message.as_str()), (500, "Task not found: x"));
    let (ok, file) = remove(&mut m, "x".to_string(), true);
    assert_eq!((ok.result, file), ("OK", None));
}

#[test]
fn tasks_are_told_by_group() {
    let mut m = manager();
    let ids: Vec<String> = (0..6).map(|_| add(&mut m)).collect();
    set(&mut m, &ids[0], DownloadState::Active);
    set(&mut m, &ids[1], DownloadState::Probing);
    set(&mut m, &ids[2], DownloadState::Paused);
    set(&mut m, &ids[3], DownloadState::Complete);
    set(&mut m, &ids[4], DownloadState::Error("e".to_string()));
    let report = SchedulerEvent::Progress { downloaded: 10, speed_bps: 2, connections: 3 };
    m.on_event(&TaskId(ids[0].clone()), report);

    let sorted = |mut v: Vec<String>| {
        v.sort();
        v
    };
    let active = tell_active(&m);
    let first = active.iter().find(|s| s.gid == ids[0]).unwrap();
    assert_eq!(first.completed_length, "10");
    assert_eq!(first.download_speed, "2");
    assert_eq!(first.connections, 3);
    assert_eq!(first.status, "active");
    assert_eq!(gids(active), sorted(vec![ids[0].clone(), ids[1].clone()]));
    assert_eq!(gids(tell_waiting(&m)), sorted(vec![ids[2].clone(), ids[5].clone()]));
    assert_eq!(gids(tell_stopped(&m)), sorted(vec![ids[3].clone(), ids[4].clone()]));

    let stat = global_stat(&m);
    assert_eq!((stat.num_active, stat.num_waiting, stat.num_stopped), (2, 2, 2));
    assert_eq!(stat.download_speed, "0");
    let counts = global_counts(&m);
    assert_eq!((counts.active, counts.waiting, counts.stopped), (2, 1, 2));
    assert_eq!(counts.speed_bps, 2);
    for gid in [&ids[1], &ids[3]] {
        let report = SchedulerEvent::Progress { downloaded: 1, speed_bps: 40, connections: 1 };
        m.on_event(&TaskId(gid.to_string()), report);
    }
    assert_eq!(total_speed(&m), 42); // the completed one has come to rest
}

#[test]
fn control_requests() {
    let mut m = manager();
    let gid = add(&mut m);
    set(&mut m, &gid, DownloadState::Active);
    assert_eq!(pause(&mut m, gid.clone()).unwrap().result, "OK");
    assert_eq!(tell_status(&m, gid.clone()).unwrap().status, "paused");
    assert!(resume(&mut m, gid.clone()).unwrap().1);
    assert!(!resume(&mut m, gid.clone()).unwrap().1);
    m.on_event(&TaskId(gid.clone()), SchedulerEvent::Error("boom".to_string()));
    let s = tell_status(&m, gid.clone()).unwrap();
    assert_eq!((s.status.as_str(), s.error_message.as_deref()), ("error", Some("boom")));
    assert_eq!(remove(&mut m, gid.clone(), false).1, None);
    assert!(tell_status(&m, gid).is_err());
}

#[test]
fn streams_end_with_the_download() {
    let mut m = manager();
    let gid = add(&mut m);
    let id = TaskId(gid.clone());
    assert!(keeps_streaming(&None));
    let report = || SchedulerEvent::Progress { downloaded: 1, speed_bps: 1, connections: 1 };
    m.on_event(&id, report());
    assert!(keeps_streaming(&m.latest_progress(&id)));
    set(&mut m, &gid, DownloadState::Complete);
    m.on_event(&id, report());
    assert!(!keeps_streaming(&m.latest_progress(&id)));
    let done = SchedulerEvent::Complete { output_path: FilePath::from_text("/dl/f") };
    m.on_event(&id, done);
    let s = tell_status(&m, gid).unwrap();
    assert_eq!((s.status.as_str(), s.files[0].path.as_str()), ("complete", "/dl/f"));
}

#[test]
fn removal_names_the_file_to_delete() {
    let mut m = manager();
    let gid = add(&mut m);
    let done = SchedulerEvent::Complete { output_path: FilePath::from_text("/dl/f") };
    m.on_event(&TaskId(gid.clone()), done);
    assert_eq!(remove(&mut m, gid, true).1, Some(FilePath::from_text("/dl/f")));
}

#[test]
fn requests_must_show_the_secret() {
    let some = |s: &str| Some(s.to_string());
    assert!(authorized(&None, &None));
    assert!(authorized(&None, &some("x")));
    assert!(authorized(&some("x"), &some("x")));
    assert!(!authorized(&some("x"), &some("y")));
    assert!(!authorized(&some("x"), &None));
    assert_eq!(bearer_token(&some("Bearer a b")).as_deref(), Some("a b"));
    assert_eq!(bearer_token(&some("bEARER x")).as_deref(), Some("x"));
    assert_eq!(bearer_token(&some("Basic x")), None);
    assert_eq!(bearer_token(&some("Bearer")), None);
    assert_eq!(bearer_token(&None), None);
    assert_eq!(authorization(&some("s")).as_deref(), Some("Bearer s"));
    assert_eq!(authorization(&None), None);
    assert!(check_request(&some("s"), &authorization(&some("s"))).is_ok());
    assert!(check_request(&None, &None).is_ok());
    let e = check_request(&some("s"), &some("Bearer t")).unwrap_err();
    assert_eq!((e.status, e.message.as_str()), (401, "Unauthorized"));
}
