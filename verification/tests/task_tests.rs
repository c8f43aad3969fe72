use rude_core::engine::task::{
    filename_from_segments, Checksum, ChecksumAlgo, DownloadState, DownloadTask, TaskId,
    TaskOptions, Timestamp,
};
use rude_core::engine::urls::{collect_urls, parse_all};

fn task_for(url: &str, out: Option<&str>) -> DownloadTask {
    let mut options = TaskOptions::default();
    options.out = out.map(String::from);
    DownloadTask::new(vec![url.to_string()], options)
}

#[test]
fn identifiers_are_random_uuids() {
    let a = TaskId::new();
    let b = TaskId::new();
    assert_ne!(a, b);
    let s = a.to_string();
    assert_eq!(s.len(), 36);
    let chars: Vec<char> = s.chars().collect();
    assert!([8, 13, 18, 23].iter().all(|i| chars[*i] == '-'));
    assert_eq!(chars[14], '4');
    assert!("89ab".contains(chars[19]));
    assert!(chars.iter().all(|c| *c == '-' || c.is_ascii_digit() || ('a'..='f').contains(c)));
}

#[test]
fn states_are_grouped() {
    let error = DownloadState::Error("x".to_string());
    assert!(DownloadState::Complete.is_terminal() && error.is_terminal());
    assert!(!DownloadState::Paused.is_terminal());
    for s in [DownloadState::Active, DownloadState::Probing, DownloadState::Assembling] {
        assert!(s.is_active() && !s.is_terminal() && !s.is_waiting());
    }
    for s in [DownloadState::Queued, DownloadState::Paused] {
        assert!(!s.is_active() && s.is_waiting());
    }
    assert_eq!(error.clone(), error);
}

#[test]
fn file_names_come_from_the_url() {
    assert_eq!(task_for("https://example.com/a/file.iso", None).infer_filename(), "file.iso");
    assert_eq!(task_for("https://example.com/a/b%20c?x=1#y", None).infer_filename(), "b%20c");
    assert_eq!(task_for("https://example.com/", None).infer_filename(), "download");
    assert_eq!(task_for("https://example.com/a/", None).infer_filename(), "download");
    assert_eq!(task_for("data:text/plain,hi", None).infer_filename(), "download");
    assert_eq!(task_for("https://example.com/a/file.iso", Some("my")).infer_filename(), "my");
}

#[test]
fn file_names_from_segments() {
    assert_eq!(filename_from_segments(&None), "download");
    assert_eq!(filename_from_segments(&Some(vec![])), "download");
    let segments = vec!["a".to_string(), "b".to_string()];
    assert_eq!(filename_from_segments(&Some(segments)), "b");
}

#[test]
fn new_tasks_are_queued() {
    let t = task_for("https://example.com/f", None);
    assert_eq!(t.state, DownloadState::Queued);
    assert_eq!(t.primary_url(), "https://example.com/f");
    assert!(t.created_at.secs > 1_600_000_000);
    assert!(t.output_path.is_none() && t.total_bytes.is_none() && t.started_at.is_none());
    let at = Timestamp { secs: 5, nanos: 6 };
    let q = DownloadTask::queued(TaskId("x".to_string()), vec![], TaskOptions::default(), at);
    assert_eq!((q.id.0.as_str(), q.created_at), ("x", at));
}

#[test]
fn copies_keep_everything() {
    let mut t = task_for("https://example.com/f", Some("o"));
    t.options.checksum =
        Some(Checksum { algorithm: ChecksumAlgo::Md5, value: "ab".to_string() });
    t.options.headers = vec![("A".to_string(), "b".to_string())];
    let c = t.clone();
    assert_eq!(c.options.headers, t.options.headers);
    assert_eq!(c.options.checksum.unwrap().value, "ab");
    assert_eq!(c.id, t.id);
    assert_eq!(c.urls, t.urls);
}

#[test]
fn urls_are_normalised_or_refused() {
    let inputs = vec!["HTTP://Example.com".to_string(), "https://a.b/c d".to_string()];
    assert_eq!(
        parse_all(&inputs).unwrap(),
        vec!["http://example.com/".to_string(), "https://a.b/c%20d".to_string()]
    );
    let bad = vec!["https://ok/".to_string(), "nonsense".to_string(), "http://[".to_string()];
    assert_eq!(parse_all(&bad).unwrap_err(), "relative URL without a base");
    assert_eq!(parse_all(&vec![]).unwrap(), Vec::<String>::new());
}

#[test]
fn the_first_error_counts() {
    let results = vec![Ok("a".to_string()), Err("x".to_string()), Err("y".to_string())];
    assert_eq!(collect_urls(results).unwrap_err(), "x");
    assert_eq!(collect_urls(vec![Ok("a".to_string())]).unwrap(), vec!["a".to_string()]);
}
