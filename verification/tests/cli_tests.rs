use rude_core::cli::{
    add_job, add_job_with, algo_from_name, daemon_requests, format_eta, hint_lines,
    parse_checksum, parse_optional_checksum, speed_unit, wait_step, AddArgs, Cli, Commands,
    Method, SpeedUnit, WaitStep,
};
use rude_core::engine::task::{
    ChecksumAlgo, DownloadState, DownloadTask, TaskId, TaskOptions, Timestamp,
};
use rude_core::path::FilePath;

fn args(urls: &[&str], checksum: Option<&str>) -> AddArgs {
    AddArgs {
        urls: urls.iter().map(|u| u.to_string()).collect(),
        out: Some("o".to_string()),
        dir: None,
        connections: 8,
        split: Some(16),
        sequential: true,
        max_speed: 5,
        checksum: checksum.map(String::from),
    }
}

#[test]
fn checksums_are_parsed() {
    let c = parse_checksum("Sha256=abc=d").unwrap();
    assert_eq!((c.algorithm, c.value.as_str()), (ChecksumAlgo::Sha256, "abc=d"));
    assert_eq!(parse_checksum("sha1=").unwrap().algorithm, ChecksumAlgo::Sha1);
    assert_eq!(parse_checksum("MD5=x").unwrap().algorithm, ChecksumAlgo::Md5);
    assert_eq!(parse_checksum("abc").unwrap_err(), "Checksum format: <algo>=<hex>");
    assert_eq!(parse_checksum("CRC=1").unwrap_err(), "Unknown checksum algo: crc");
    assert!(parse_optional_checksum(&None).unwrap().is_none());
    assert_eq!(algo_from_name("md5"), Some(ChecksumAlgo::Md5));
    assert_eq!(algo_from_name("MD5"), None);
}

#[test]
fn jobs_from_arguments() {
    let job = add_job(args(&["https://a/", "https://b"], Some("md5=ff"))).unwrap();
    assert_eq!(job.urls, vec!["https://a/".to_string(), "https://b/".to_string()]);
    let o = job.options;
    assert_eq!((o.max_connections, o.split), (Some(8), Some(16)));
    assert_eq!((o.out.as_deref(), o.dir), (Some("o"), None));
    assert_eq!((o.sequential, o.max_speed), (true, 5));
    assert_eq!(o.checksum.unwrap().value, "ff");
    assert!(o.headers.is_empty() && o.referer.is_none() && o.user_agent.is_none());
}

#[test]
fn bad_arguments() {
    // the URL is looked at first
    let e = add_job(args(&["bad"], Some("bad"))).unwrap_err();
    assert_eq!(e, "relative URL without a base");
    let e = add_job(args(&["https://a/"], Some("bad"))).unwrap_err();
    assert_eq!(e, "Checksum format: <algo>=<hex>");
    let job = add_job_with(vec!["x".to_string()], args(&[], None)).unwrap();
    assert_eq!(job.urls, vec!["x".to_string()]);
}

#[test]
fn daemon_commands_print_the_request() {
    let gid = || "g1".to_string();
    let line = |c: Commands| hint_lines(&c, 99).join("|");
    assert_eq!(line(Commands::Status { gid: gid() }), "API: GET http://127.0.0.1:99/api/tellStatus/g1");
    assert_eq!(line(Commands::Pause { gid: gid() }), "API: PUT http://127.0.0.1:99/api/pause/g1");
    assert_eq!(line(Commands::Resume { gid: gid() }), "API: PUT http://127.0.0.1:99/api/resume/g1");
    assert_eq!(
        line(Commands::Cancel { gid: gid(), remove_file: true }),
        "API: DELETE http://127.0.0.1:99/api/remove/g1 (remove_file=true)"
    );
    assert_eq!(
        line(Commands::Cancel { gid: gid(), remove_file: false }),
        "API: DELETE http://127.0.0.1:99/api/remove/g1 (remove_file=false)"
    );
    assert_eq!(
        line(Commands::List),
        "Use 'rude daemon' to start the background server.|\
         API: GET http://127.0.0.1:16800/api/tellActive"
    );
    let cli = Cli { config: None, command: Commands::Daemon };
    assert!(hint_lines(&cli.command, 99).is_empty());
    assert!(hint_lines(&Commands::Config, 99).is_empty());
    assert!(hint_lines(&Commands::Add(args(&[], None)), 99).is_empty());
}

#[test]
fn waiting_ends_with_the_download() {
    let at = Timestamp { secs: 0, nanos: 0 };
    let mut t = DownloadTask::queued(TaskId("a".to_string()), vec![], TaskOptions::default(), at);
    assert!(matches!(wait_step(&None), WaitStep::Idle));
    assert!(matches!(wait_step(&Some(t.clone())), WaitStep::Show));
    t.state = DownloadState::Complete;
    assert!(matches!(wait_step(&Some(t.clone())), WaitStep::Done(p) if p.is_empty()));
    t.output_path = Some(FilePath::from_text("/dl/f"));
    assert!(matches!(wait_step(&Some(t.clone())), WaitStep::Done(p) if p == "/dl/f"));
    t.state = DownloadState::Error("e".to_string());
    assert!(matches!(wait_step(&Some(t)), WaitStep::Failed(e) if e == "e"));
}

#[test]
fn times_and_speeds() {
    assert_eq!(format_eta(0), "0s");
    assert_eq!(format_eta(59), "59s");
    assert_eq!(format_eta(60), "1m0s");
    assert_eq!(format_eta(3599), "59m59s");
    assert_eq!(format_eta(3600), "1h0m");
    assert_eq!(format_eta(90_061), "25h1m");
    assert_eq!(speed_unit(999), SpeedUnit::Bytes);
    assert_eq!(speed_unit(1000), SpeedUnit::Kilobytes);
    assert_eq!(speed_unit(999_999), SpeedUnit::Kilobytes);
    assert_eq!(speed_unit(1_000_000), SpeedUnit::Megabytes);
}

#[test]
fn commands_become_requests_to_the_daemon() {
    let sent = |command: Commands| -> Vec<(Method, String)> {
        daemon_requests(&command, "127.0.0.1:16800").into_iter().map(|r| (r.method, r.url)).collect()
    };
    let url = |path: &str| format!("http://127.0.0.1:16800{}", path);
    let gid = || "g".to_string();
    assert_eq!(
        sent(Commands::List),
        vec![
            (Method::Get, url("/api/tellActive")),
            (Method::Get, url("/api/tellWaiting")),
            (Method::Get, url("/api/tellStopped")),
        ]
    );
    assert_eq!(sent(Commands::Status { gid: gid() }), vec![(Method::Get, url("/api/tellStatus/g"))]);
    assert_eq!(sent(Commands::Pause { gid: gid() }), vec![(Method::Put, url("/api/pause/g"))]);
    assert_eq!(sent(Commands::Resume { gid: gid() }), vec![(Method::Put, url("/api/resume/g"))]);
    assert_eq!(
        sent(Commands::Cancel { gid: gid(), remove_file: false }),
        vec![(Method::Delete, url("/api/remove/g"))]
    );
    assert_eq!(
        sent(Commands::Cancel { gid: gid(), remove_file: true }),
        vec![(Method::Delete, url("/api/remove/g?remove_file=true"))]
    );
    assert!(sent(Commands::Daemon).is_empty());
}
